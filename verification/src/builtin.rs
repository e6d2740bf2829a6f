//! Commands that run inside the shell. Each is a value that holds its
//! arguments, and a function from its input and the environment to its
//! output and exit code. Files that a command is to read are handed to it
//! with their contents.
use crate::command::{Ending, ExecError, ExecErrorView, ExecutableCommand, ExitCode, Stdin};
use crate::env::{Environment, EnvironmentView};
use crate::external::{join_path, joined};
use crate::io_adapters::{MemReader, MemWriter};
use crate::text::{
    char_is_whitespace, chars_of, decimal, decimal_string, is_whitespace, join_with_spaces,
    join_words, push_char, str_from_utf8, texts,
};
use vstd::prelude::*;
use vstd::utf8::{decode_utf8, encode_utf8, valid_utf8};

verus! {

/// What a built-in command works on: what is left of its input, what was
/// written to its output, and the environment.
pub struct Streams {
    pub stdin: Seq<u8>,
    pub stdout: Seq<u8>,
    pub env: EnvironmentView,
}

/// The streams with these values.
pub open spec fn streams(stdin: Seq<u8>, stdout: Seq<u8>, env: EnvironmentView) -> Streams {
    Streams { stdin, stdout, env }
}

/// How a built-in command ends: with its exit code, or with the text of a
/// failure.
pub type Outcome = Result<ExitCode, Seq<char>>;

/// The outcome that a result stands for.
pub open spec fn outcome_of(r: Result<ExitCode, String>) -> Outcome {
    match r {
        Ok(code) => Ok(code),
        Err(text) => Err(text@),
    }
}

/// A command that is known to the shell and runs in its process.
pub trait BuiltinCommand: Sized {
    /// The name by which the command is called.
    fn name() -> &'static str;

    /// What a run of the command may come to: whether the command, finding
    /// the streams `before`, may end with `outcome` and leave the streams
    /// `after`. Each command says here what it does.
    spec fn runs(&self, before: Streams, outcome: Outcome, after: Streams) -> bool;

    /// Runs the command. It returns its exit code, or the text of an error
    /// that the caller is to report.
    fn execute(self, stdin: &mut MemReader, stdout: &mut MemWriter, env: &mut Environment) -> (r:
        Result<ExitCode, String>)
        ensures
            self.runs(
                streams(old(stdin)@, old(stdout)@, old(env)@),
                outcome_of(r),
                streams(final(stdin)@, final(stdout)@, final(env)@),
            ),
    ;
}

/// What is handed to a built-in command as its input: what was piped, or
/// nothing.
pub open spec fn piped(stdin: Option<Seq<u8>>) -> Seq<u8> {
    match stdin {
        Some(bytes) => bytes,
        None => Seq::<u8>::empty(),
    }
}

/// What is handed to a built-in command as its input: what was piped, or
/// nothing.
pub open spec fn piped_bytes(stdin: Stdin) -> Seq<u8> {
    piped(stdin@)
}

/// What the caller of a built-in command makes of its outcome: the exit
/// code is the command's own, or 1 where it failed; the output is what the
/// command wrote, and after it the text of the failure where it failed.
pub open spec fn reported(outcome: Outcome, written: Seq<u8>) -> (ExitCode, Seq<u8>) {
    match outcome {
        Ok(code) => (code, written),
        Err(text) => (1, written + encode_utf8(text)),
    }
}

/// The exit code of a built-in command that has run: its own, or 1 where
/// it failed; the text of the failure is then written to the output.
pub fn report_outcome(outcome: Result<ExitCode, String>, stdout: &mut MemWriter) -> (code: ExitCode)
    ensures
        match outcome {
            Ok(own) => code == own && final(stdout)@ == old(stdout)@,
            Err(text) => code == 1 && final(stdout)@ == old(stdout)@ + encode_utf8(text@),
        },
        (code, final(stdout)@) == reported(outcome_of(outcome), old(stdout)@),
{
    match outcome {
        Ok(own) => {
            own
        },
        Err(text) => {
            stdout.write_str(text.as_str());
            1
        },
    }
}

/// What a stage reads, as a reader: what was piped to it, or nothing where
/// it would read the input of the shell, which no command that runs in
/// memory can reach.
pub fn reader_of(stdin: Stdin) -> (reader: MemReader)
    ensures
        reader@ == piped_bytes(stdin),
{
    match stdin {
        Stdin::Piped(piped) => piped,
        Stdin::Inherited => MemReader::new(Vec::new()),
    }
}

impl<T: BuiltinCommand> ExecutableCommand for T {
    /// Runs the built-in command on what was piped to it, on the output and
    /// in the environment that it is given. A failure of the command does
    /// not stop the line: it becomes exit code 1, and its text is written
    /// to the output after what the command wrote.
    ///
    /// So there is a run of the command, from what it was given to some
    /// outcome, of which the result is the report: the environment is as
    /// that run left it, the exit code and the output are what
    /// [`reported`] makes of its outcome and of what it wrote.
    /// There is a run of the built-in command, from what was piped to some
    /// outcome, of which the ending is the report: see [`reported`].
    open spec fn may_run(
        &self,
        stdin: Option<Seq<u8>>,
        stdout: Seq<u8>,
        env: EnvironmentView,
        ending: Ending,
        stdout_after: Seq<u8>,
        env_after: EnvironmentView,
    ) -> bool {
        exists|outcome: Outcome, after: Streams| #[trigger]
            self.runs(streams(piped(stdin), stdout, env), outcome, after) && after.env
                == env_after && ending == Ok::<ExitCode, ExecErrorView>(
                reported(outcome, after.stdout).0,
            ) && stdout_after == reported(outcome, after.stdout).1
    }

    fn execute(self: Box<Self>, stdin: Stdin, stdout: &mut MemWriter, env: &mut Environment) -> (r:
        Result<ExitCode, ExecError>)
        ensures
            r is Ok,
            exists|outcome: Outcome, after: Streams| #[trigger]
                self.runs(streams(piped_bytes(stdin), old(stdout)@, old(env)@), outcome, after)
                    && after.env == final(env)@ && r->Ok_0 == reported(outcome, after.stdout).0
                    && final(stdout)@ == reported(outcome, after.stdout).1,
    {
        let mut reader = reader_of(stdin);
        let ghost before = streams(reader@, stdout@, env@);
        let outcome = T::execute(*self, &mut reader, stdout, env);
        let ghost after = streams(reader@, stdout@, env@);
        let code = report_outcome(outcome, stdout);
        assert(self.runs(before, outcome_of(outcome), after) && after.env == env@ && code
            == reported(outcome_of(outcome), after.stdout).0 && stdout@ == reported(
            outcome_of(outcome),
            after.stdout,
        ).1);
        Ok(code)
    }
}

/// What stands in for a built-in command whose arguments were refused: it
/// writes the text that explains the refusal, or the help text that was
/// asked for.
#[derive(Debug)]
pub struct InvalidArgs {
    /// The text to write.
    pub output: String,
    /// Whether the arguments were wrong, rather than a request for help.
    pub is_error: bool,
}

impl InvalidArgs {
    /// Writes the text. The exit code is 1 for wrong arguments, 0 for help.
    pub fn report(&self, stdout: &mut MemWriter) -> (code: ExitCode)
        ensures
            final(stdout)@ == old(stdout)@ + encode_utf8(self.output@),
            code == if self.is_error {
                1i32
            } else {
                0i32
            },
    {
        stdout.write_str(self.output.as_str());
        if self.is_error {
            1
        } else {
            0
        }
    }
}

impl ExecutableCommand for InvalidArgs {
    /// The text is written, the exit code is 1 for wrong arguments and 0
    /// for help, and the environment stays.
    open spec fn may_run(
        &self,
        stdin: Option<Seq<u8>>,
        stdout: Seq<u8>,
        env: EnvironmentView,
        ending: Ending,
        stdout_after: Seq<u8>,
        env_after: EnvironmentView,
    ) -> bool {
        &&& ending == Ok::<ExitCode, ExecErrorView>(
            if self.is_error {
                1i32
            } else {
                0i32
            },
        )
        &&& stdout_after == stdout + encode_utf8(self.output@)
        &&& env_after == env
    }

    /// Writes the text and returns the exit code: see [`InvalidArgs::report`].
    fn execute(self: Box<Self>, stdin: Stdin, stdout: &mut MemWriter, env: &mut Environment) -> (r:
        Result<ExitCode, ExecError>)
        ensures
            r matches Ok(code) && code == if self.is_error {
                1i32
            } else {
                0i32
            },
            final(stdout)@ == old(stdout)@ + encode_utf8(self.output@),
            final(env)@ == old(env)@,
    {
        Ok(self.report(stdout))
    }
}

/// A file that was named on a command line: its name, and its content or
/// the reason why it could not be read.
#[derive(Debug)]
pub struct FileInput {
    pub name: String,
    pub content: Result<Vec<u8>, String>,
}

/// `first: second`, the form of an error about a named thing.
pub open spec fn labelled(first: Seq<char>, second: Seq<char>) -> Seq<char> {
    first + seq![':', ' '] + second
}

/// `command: file: reason`, the text of a failure to read a file.
pub open spec fn file_failure(command: Seq<char>, file: Seq<char>, reason: Seq<char>) -> Seq<
    char,
> {
    labelled(command, labelled(file, reason))
}

fn label(first: &str, second: &str) -> (text: String)
    ensures
        text@ == labelled(first@, second@),
{
    let mut text = first.to_owned();
    push_char(&mut text, ':');
    push_char(&mut text, ' ');
    assert(text@ =~= first@ + seq![':', ' ']);
    text.append(second);
    text
}

/// What the standard library says of a stream that is no UTF-8.
pub open spec fn not_utf8_message() -> Seq<char> {
    "stream did not contain valid UTF-8"@
}

fn not_utf8() -> (text: String)
    ensures
        text@ == not_utf8_message(),
{
    "stream did not contain valid UTF-8".to_owned()
}

// ---------------------------------------------------------------------------
// pwd
// ---------------------------------------------------------------------------

/// Prints the working directory.
#[derive(Debug)]
pub struct Pwd {}

impl BuiltinCommand for Pwd {
    fn name() -> (name: &'static str)
        ensures
            name@ == "pwd"@,
    {
        "pwd"
    }

    /// The working directory and a newline are written; nothing else
    /// changes, and the exit code is 0.
    open spec fn runs(&self, before: Streams, outcome: Outcome, after: Streams) -> bool {
        &&& outcome == Ok::<ExitCode, Seq<char>>(0)
        &&& after.stdout == before.stdout + encode_utf8(before.env.current_dir.push('\n'))
        &&& after.env == before.env
        &&& after.stdin == before.stdin
    }

    /// Writes the working directory and a newline.
    fn execute(self, stdin: &mut MemReader, stdout: &mut MemWriter, env: &mut Environment) -> (r:
        Result<ExitCode, String>)
        ensures
            r == Ok::<ExitCode, String>(0),
            final(stdout)@ == old(stdout)@ + encode_utf8(old(env)@.current_dir.push('\n')),
            final(env)@ == old(env)@,
            final(stdin)@ == old(stdin)@,
    {
        let mut line = env.current_dir().to_owned();
        push_char(&mut line, '\n');
        stdout.write_str(line.as_str());
        Ok(0)
    }
}

// ---------------------------------------------------------------------------
// cd
// ---------------------------------------------------------------------------

/// Changes the working directory.
#[derive(Debug)]
pub struct Cd {
    /// The directory to change to, absolute or relative to the working
    /// directory; the directory that `HOME` names where there is none.
    pub target: Option<String>,
}

/// The name of the variable that holds the home directory.
pub open spec fn home_name() -> Seq<char> {
    "HOME"@
}

/// The text of the failure of `cd` without a target and without a home.
pub open spec fn no_target_message() -> Seq<char> {
    "cd: no target and HOME not set"@
}

/// Where `cd` goes, before the path is made canonical: the target, or the
/// home directory where the target is absent or empty; a relative path is
/// taken from the working directory. There is nowhere to go without a
/// target and without a home.
pub open spec fn cd_destination(target: Option<Seq<char>>, env: EnvironmentView) -> Option<
    Seq<char>,
> {
    let wanted = match target {
        Some(dir) if dir.len() > 0 => Some(dir),
        _ => if env.vars.contains_key(home_name()) {
            Some(env.vars[home_name()])
        } else {
            None
        },
    };
    match wanted {
        None => None,
        Some(dir) => if dir.len() > 0 && dir[0] == '/' {
            Some(dir)
        } else {
            Some(joined(env.current_dir, dir))
        },
    }
}

impl Cd {
    /// The target, as mathematics.
    pub open spec fn target_view(&self) -> Option<Seq<char>> {
        match self.target {
            Some(dir) => Some(dir@),
            None => None,
        }
    }

    /// The directory to change to, before it is made canonical, or the
    /// text of the failure where there is nowhere to go.
    pub fn destination(&self, env: &Environment) -> (r: Result<String, String>)
        ensures
            match r {
                Ok(dir) => cd_destination(self.target_view(), env@) == Some(dir@),
                Err(text) => cd_destination(self.target_view(), env@) is None && text@
                    == no_target_message(),
            },
    {
        let given = match &self.target {
            Some(dir) => if dir.as_str().is_empty() {
                None
            } else {
                Some(dir.clone())
            },
            None => None,
        };
        let wanted = match given {
            Some(dir) => dir,
            None => match env.get_var("HOME") {
                Some(home) => home,
                None => {
                    return Err("cd: no target and HOME not set".to_owned());
                },
            },
        };
        let len: usize = wanted.as_str().unicode_len();
        if len > 0 && wanted.as_str().get_char(0) == '/' {
            Ok(wanted)
        } else {
            Ok(join_path(env.current_dir(), wanted.as_str()))
        }
    }
}

// ---------------------------------------------------------------------------
// echo
// ---------------------------------------------------------------------------

/// Writes its arguments, separated by spaces.
#[derive(Debug)]
pub struct Echo {
    /// Do not end the output with a newline.
    pub no_newline: bool,
    /// The values to write.
    pub args: Vec<String>,
}

/// What `echo` writes.
pub open spec fn echo_text(args: Seq<Seq<char>>, no_newline: bool) -> Seq<char> {
    if no_newline {
        join_words(args)
    } else {
        join_words(args).push('\n')
    }
}

impl BuiltinCommand for Echo {
    fn name() -> (name: &'static str)
        ensures
            name@ == "echo"@,
    {
        "echo"
    }

    /// The arguments joined by spaces are written, and a newline unless
    /// `no_newline` is set; nothing else changes, and the exit code is 0.
    open spec fn runs(&self, before: Streams, outcome: Outcome, after: Streams) -> bool {
        &&& outcome == Ok::<ExitCode, Seq<char>>(0)
        &&& after.stdout == before.stdout + encode_utf8(
            echo_text(texts(self.args@), self.no_newline),
        )
        &&& after.env == before.env
        &&& after.stdin == before.stdin
    }

    /// Writes the arguments joined by spaces, and a newline unless
    /// `no_newline` is set.
    fn execute(self, stdin: &mut MemReader, stdout: &mut MemWriter, env: &mut Environment) -> (r:
        Result<ExitCode, String>)
        ensures
            r == Ok::<ExitCode, String>(0),
            final(stdout)@ == old(stdout)@ + encode_utf8(
                echo_text(texts(self.args@), self.no_newline),
            ),
            final(env)@ == old(env)@,
            final(stdin)@ == old(stdin)@,
    {
        let mut text = join_with_spaces(&self.args);
        if !self.no_newline {
            push_char(&mut text, '\n');
        }
        stdout.write_str(text.as_str());
        Ok(0)
    }
}

// ---------------------------------------------------------------------------
// wc
// ---------------------------------------------------------------------------

/// Counts lines, words and bytes.
#[derive(Debug)]
pub struct WC {
    /// The files to count; the input is counted where there is none.
    pub files: Vec<FileInput>,
}

/// The counts of a text.
#[derive(Debug, Clone, Copy, PartialEq, Eq)]
pub struct Counts {
    pub lines: usize,
    pub words: usize,
    pub bytes: usize,
}

/// The number of newline characters in a text.
pub open spec fn newlines(text: Seq<char>) -> nat
    decreases text.len(),
{
    if text.len() == 0 {
        0
    } else {
        newlines(text.drop_last()) + if text.last() == '\n' {
            1nat
        } else {
            0nat
        }
    }
}

/// The number of lines of a text: each newline ends a line, and what
/// follows the last newline is a line if it is not empty.
pub open spec fn line_count(text: Seq<char>) -> nat {
    newlines(text) + if text.len() > 0 && text.last() != '\n' {
        1nat
    } else {
        0nat
    }
}

/// For each character of a text, whether it is white space.
pub open spec fn blanks_of(text: Seq<char>) -> Seq<bool> {
    text.map_values(|c: char| is_whitespace(c))
}

/// Whether a word begins at position `i`: at a character that is no white
/// space, at the start of the text or after white space. `blank` tells of
/// each character whether it is white space.
pub open spec fn word_begins(blank: Seq<bool>, i: int) -> bool {
    !blank[i] && (i == 0 || blank[i - 1])
}

/// The number of runs of characters that are no white space.
pub open spec fn runs(blank: Seq<bool>) -> nat
    decreases blank.len(),
{
    if blank.len() == 0 {
        0
    } else {
        runs(blank.drop_last()) + if word_begins(blank, blank.len() - 1) {
            1nat
        } else {
            0nat
        }
    }
}

/// The number of words of a text: of its runs of characters that are no
/// white space.
pub open spec fn word_count(text: Seq<char>) -> nat {
    runs(blanks_of(text))
}

/// The line that `wc` writes for one text: the three counts, the name of
/// the file if the text is one, and a newline.
pub open spec fn counts_line(lines: nat, words: nat, bytes: nat, name: Option<Seq<char>>) -> Seq<
    char,
> {
    let numbers = decimal(lines) + seq![' '] + decimal(words) + seq![' '] + decimal(bytes);
    match name {
        Some(name) => (numbers + seq![' '] + name).push('\n'),
        None => numbers.push('\n'),
    }
}

/// Counts the words of a text of which `blank` tells, character by
/// character, where the white space is.
pub fn count_words(blank: &Vec<bool>) -> (words: usize)
    ensures
        words == runs(blank@),
{
    let mut words: usize = 0;
    let mut i: usize = 0;
    while i < blank.len()
        invariant
            i <= blank@.len(),
            words == runs(blank@.take(i as int)),
            words <= i,
        decreases blank@.len() - i,
    {
        proof {
            assert(blank@.take(i + 1).drop_last() =~= blank@.take(i as int));
        }
        if !blank[i] && (i == 0 || blank[i - 1]) {
            words += 1;
        }
        i += 1;
    }
    assert(blank@.take(i as int) =~= blank@);
    words
}

/// Counts the lines of a text.
pub fn count_lines(chars: &Vec<char>) -> (lines: usize)
    ensures
        lines == line_count(chars@),
{
    let mut lines: usize = 0;
    let mut i: usize = 0;
    while i < chars.len()
        invariant
            i <= chars@.len(),
            lines == newlines(chars@.take(i as int)),
            lines <= i,
            i > 0 && chars@[i - 1] != '\n' ==> lines < i,
        decreases chars@.len() - i,
    {
        proof {
            assert(chars@.take(i + 1).drop_last() =~= chars@.take(i as int));
        }
        if chars[i] == '\n' {
            lines += 1;
        }
        i += 1;
    }
    assert(chars@.take(i as int) =~= chars@);
    if chars.len() > 0 && chars[chars.len() - 1] != '\n' {
        lines += 1;
    }
    lines
}

/// Counts the lines, the words and the bytes of a text.
pub fn count_text(text: &str) -> (counts: Counts)
    ensures
        counts.lines == line_count(text@),
        counts.words == word_count(text@),
        counts.bytes == encode_utf8(text@).len(),
{
    let chars = chars_of(text);
    let mut blank: Vec<bool> = Vec::new();
    let mut i: usize = 0;
    while i < chars.len()
        invariant
            i <= chars@.len(),
            blank@.len() == i,
            forall|j: int| 0 <= j < i ==> blank@[j] == is_whitespace(chars@[j]),
        decreases chars@.len() - i,
    {
        blank.push(char_is_whitespace(chars[i]));
        i += 1;
    }
    assert(blank@ =~= blanks_of(text@));
    Counts { lines: count_lines(&chars), words: count_words(&blank), bytes: text.as_bytes().len() }
}

/// Writes the line of `wc` for one text.
pub fn format_counts(counts: Counts, name: Option<&str>) -> (line: String)
    ensures
        line@ == counts_line(
            counts.lines as nat,
            counts.words as nat,
            counts.bytes as nat,
            name_text(name),
        ),
{
    let mut line = decimal_string(counts.lines);
    push_char(&mut line, ' ');
    line.append(decimal_string(counts.words).as_str());
    push_char(&mut line, ' ');
    line.append(decimal_string(counts.bytes).as_str());
    assert(line@ =~= decimal(counts.lines as nat) + seq![' '] + decimal(counts.words as nat)
        + seq![' '] + decimal(counts.bytes as nat));
    if let Some(name) = name {
        push_char(&mut line, ' ');
        line.append(name);
    }
    push_char(&mut line, '\n');
    line
}

/// The text of a name, if there is one.
pub open spec fn name_text(name: Option<&str>) -> Option<Seq<char>> {
    match name {
        Some(name) => Some(name@),
        None => None,
    }
}

/// What `wc` makes of one text that was read: its line, or the failure
/// where the bytes are no UTF-8.
pub open spec fn wc_of_bytes(bytes: Seq<u8>, name: Option<Seq<char>>) -> Result<Seq<char>, Seq<char>> {
    if valid_utf8(bytes) {
        let text = decode_utf8(bytes);
        Ok(counts_line(line_count(text), word_count(text), bytes.len(), name))
    } else {
        Err(not_utf8_message())
    }
}

fn wc_bytes(bytes: &[u8], name: Option<&str>) -> (r: Result<String, String>)
    ensures
        match r {
            Ok(line) => wc_of_bytes(bytes@, name_text(name)) == Ok::<Seq<char>, Seq<char>>(line@),
            Err(text) => wc_of_bytes(bytes@, name_text(name)) == Err::<Seq<char>, Seq<char>>(
                text@,
            ),
        },
{
    match str_from_utf8(bytes) {
        Some(text) => Ok(format_counts(count_text(text), name)),
        None => Err(not_utf8()),
    }
}

/// The mathematical value of a [`FileInput`].
pub struct FileView {
    pub name: Seq<char>,
    pub content: Result<Seq<u8>, Seq<char>>,
}

impl DeepView for FileInput {
    type V = FileView;

    open spec fn deep_view(&self) -> FileView {
        FileView {
            name: self.name@,
            content: match self.content {
                Ok(bytes) => Ok(bytes@),
                Err(reason) => Err(reason@),
            },
        }
    }
}

/// What `wc` makes of its files: the lines that it writes, one for each
/// file up to the first that fails, and the text of that failure if there
/// is one.
pub open spec fn wc_report(files: Seq<FileView>) -> (Seq<char>, Option<Seq<char>>)
    decreases files.len(),
{
    if files.len() == 0 {
        (Seq::empty(), None)
    } else {
        let (text, failure) = wc_report(files.drop_last());
        if failure is Some {
            (text, failure)
        } else {
            let file = files.last();
            match file.content {
                Err(reason) => (text, Some(file_failure("wc"@, file.name, reason))),
                Ok(bytes) => match wc_of_bytes(bytes, Some(file.name)) {
                    Ok(line) => (text + line, None),
                    Err(failure) => (text, Some(failure)),
                },
            }
        }
    }
}

/// A report that has failed on a prefix of the files is the report of all
/// of them.
proof fn lemma_wc_report_stops(files: Seq<FileView>, n: int)
    requires
        0 <= n <= files.len(),
        wc_report(files.take(n)).1 is Some,
    ensures
        wc_report(files) == wc_report(files.take(n)),
    decreases files.len() - n,
{
    if n < files.len() {
        assert(files.take(n + 1).drop_last() =~= files.take(n));
        lemma_wc_report_stops(files, n + 1);
    } else {
        assert(files.take(n) =~= files);
    }
}

impl BuiltinCommand for WC {
    fn name() -> (name: &'static str)
        ensures
            name@ == "wc"@,
    {
        "wc"
    }

    /// Without files, the input is read to its end and its line is
    /// written, or the run fails where the input is no UTF-8. With files, the
    /// lines of the files up to the first that fails are written, and the
    /// run fails with the text of that failure. The environment stays.
    open spec fn runs(&self, before: Streams, outcome: Outcome, after: Streams) -> bool {
        &&& after.env == before.env
        &&& self.files@.len() == 0 ==> after.stdin == Seq::<u8>::empty() && match wc_of_bytes(
            before.stdin,
            None,
        ) {
            Ok(line) => outcome == Ok::<ExitCode, Seq<char>>(0) && after.stdout == before.stdout
                + encode_utf8(line),
            Err(failure) => outcome == Err::<ExitCode, Seq<char>>(failure) && after.stdout
                == before.stdout,
        }
        &&& self.files@.len() > 0 ==> after.stdin == before.stdin && after.stdout == before.stdout
            + encode_utf8(wc_report(self.files.deep_view()).0) && match wc_report(
            self.files.deep_view(),
        ).1 {
            None => outcome == Ok::<ExitCode, Seq<char>>(0),
            Some(failure) => outcome == Err::<ExitCode, Seq<char>>(failure),
        }
    }

    /// Without files, counts the input and writes one line. With files,
    /// writes one line for each, in order, and stops at the first that
    /// could not be read or is no UTF-8.
    fn execute(self, stdin: &mut MemReader, stdout: &mut MemWriter, env: &mut Environment) -> (r:
        Result<ExitCode, String>)
        ensures
            final(env)@ == old(env)@,
            self.files@.len() == 0 ==> final(stdin)@ == Seq::<u8>::empty() && match wc_of_bytes(
                old(stdin)@,
                None,
            ) {
                Ok(line) => r == Ok::<ExitCode, String>(0) && final(stdout)@ == old(stdout)@
                    + encode_utf8(line),
                Err(failure) => (r matches Err(text) && text@ == failure) && final(stdout)@ == old(
                    stdout,
                )@,
            },
            self.files@.len() > 0 ==> final(stdin)@ == old(stdin)@ && final(stdout)@ == old(
                stdout,
            )@ + encode_utf8(wc_report(self.files.deep_view()).0) && match wc_report(
                self.files.deep_view(),
            ).1 {
                None => r == Ok::<ExitCode, String>(0),
                Some(failure) => r matches Err(text) && text@ == failure,
            },
    {
        if self.files.len() == 0 {
            let data = stdin.read_to_end();
            let line = wc_bytes(data.as_slice(), None)?;
            stdout.write_str(line.as_str());
            return Ok(0);
        }
        let mut report = String::new();
        let mut i: usize = 0;
        while i < self.files.len()
            invariant
                i <= self.files@.len(),
                wc_report(self.files.deep_view().take(i as int)) == (report@, None::<Seq<char>>),
                stdout@ == old(stdout)@,
                stdin@ == old(stdin)@,
                env@ == old(env)@,
            decreases self.files@.len() - i,
        {
            proof {
                let files = self.files.deep_view();
                assert(files.take(i + 1).drop_last() =~= files.take(i as int));
                assert(files.take(i + 1).last() == self.files@[i as int].deep_view());
            }
            let file = &self.files[i];
            let outcome = match &file.content {
                Err(reason) => Err(label("wc", label(file.name.as_str(), reason.as_str()).as_str())),
                Ok(bytes) => wc_bytes(bytes.as_slice(), Some(file.name.as_str())),
            };
            match outcome {
                Ok(line) => {
                    report.append(line.as_str());
                },
                Err(failure) => {
                    proof {
                        lemma_wc_report_stops(self.files.deep_view(), i + 1);
                    }
                    stdout.write_str(report.as_str());
                    return Err(failure);
                },
            }
            i += 1;
        }
        assert(self.files.deep_view().take(i as int) =~= self.files.deep_view());
        stdout.write_str(report.as_str());
        Ok(0)
    }
}

// ---------------------------------------------------------------------------
// cat
// ---------------------------------------------------------------------------

/// Copies files, or the input, to the output.
#[derive(Debug)]
pub struct Cat {
    /// The files to copy; the input is copied where there is none.
    pub files: Vec<FileInput>,
}

/// What `cat` makes of its files: the bytes that it writes, those of each
/// file up to the first that could not be read, and the text of that
/// failure if there is one.
pub open spec fn cat_report(files: Seq<FileView>) -> (Seq<u8>, Option<Seq<char>>)
    decreases files.len(),
{
    if files.len() == 0 {
        (Seq::empty(), None)
    } else {
        let (bytes, failure) = cat_report(files.drop_last());
        if failure is Some {
            (bytes, failure)
        } else {
            let file = files.last();
            match file.content {
                Err(reason) => (bytes, Some(file_failure("cat"@, file.name, reason))),
                Ok(more) => (bytes + more, None),
            }
        }
    }
}

/// A report that has failed on a prefix of the files is the report of all
/// of them.
proof fn lemma_cat_report_stops(files: Seq<FileView>, n: int)
    requires
        0 <= n <= files.len(),
        cat_report(files.take(n)).1 is Some,
    ensures
        cat_report(files) == cat_report(files.take(n)),
    decreases files.len() - n,
{
    if n < files.len() {
        assert(files.take(n + 1).drop_last() =~= files.take(n));
        lemma_cat_report_stops(files, n + 1);
    } else {
        assert(files.take(n) =~= files);
    }
}

impl BuiltinCommand for Cat {
    fn name() -> (name: &'static str)
        ensures
            name@ == "cat"@,
    {
        "cat"
    }

    /// Without files, the input is read to its end and written as it is,
    /// or the run fails where the input is no UTF-8. With files, the bytes of
    /// the files up to the first that could not be read are written, and
    /// the run fails with the text of that failure. The environment stays.
    open spec fn runs(&self, before: Streams, outcome: Outcome, after: Streams) -> bool {
        &&& after.env == before.env
        &&& self.files@.len() == 0 ==> after.stdin == Seq::<u8>::empty() && if valid_utf8(
            before.stdin,
        ) {
            outcome == Ok::<ExitCode, Seq<char>>(0) && after.stdout == before.stdout + before.stdin
        } else {
            outcome == Err::<ExitCode, Seq<char>>(not_utf8_message()) && after.stdout
                == before.stdout
        }
        &&& self.files@.len() > 0 ==> after.stdin == before.stdin && after.stdout == before.stdout
            + cat_report(self.files.deep_view()).0 && match cat_report(self.files.deep_view()).1 {
            None => outcome == Ok::<ExitCode, Seq<char>>(0),
            Some(failure) => outcome == Err::<ExitCode, Seq<char>>(failure),
        }
    }

    /// Without files, copies the input, which has to be UTF-8. With files,
    /// copies each in order, byte for byte, and stops at the first that
    /// could not be read.
    fn execute(self, stdin: &mut MemReader, stdout: &mut MemWriter, env: &mut Environment) -> (r:
        Result<ExitCode, String>)
        ensures
            final(env)@ == old(env)@,
            self.files@.len() == 0 ==> final(stdin)@ == Seq::<u8>::empty() && if valid_utf8(
                old(stdin)@,
            ) {
                r == Ok::<ExitCode, String>(0) && final(stdout)@ == old(stdout)@ + old(stdin)@
            } else {
                (r matches Err(text) && text@ == not_utf8_message()) && final(stdout)@ == old(
                    stdout,
                )@
            },
            self.files@.len() > 0 ==> final(stdin)@ == old(stdin)@ && final(stdout)@ == old(
                stdout,
            )@ + cat_report(self.files.deep_view()).0 && match cat_report(
                self.files.deep_view(),
            ).1 {
                None => r == Ok::<ExitCode, String>(0),
                Some(failure) => r matches Err(text) && text@ == failure,
            },
    {
        if self.files.len() == 0 {
            let data = stdin.read_to_end();
            return match str_from_utf8(data.as_slice()) {
                Some(text) => {
                    stdout.write_str(text);
                    Ok(0)
                },
                None => Err(not_utf8()),
            };
        }
        let mut i: usize = 0;
        while i < self.files.len()
            invariant
                i <= self.files@.len(),
                cat_report(self.files.deep_view().take(i as int)).1 is None,
                stdout@ == old(stdout)@ + cat_report(self.files.deep_view().take(i as int)).0,
                stdin@ == old(stdin)@,
                env@ == old(env)@,
            decreases self.files@.len() - i,
        {
            proof {
                let files = self.files.deep_view();
                assert(files.take(i + 1).drop_last() =~= files.take(i as int));
                assert(files.take(i + 1).last() == self.files@[i as int].deep_view());
            }
            let file = &self.files[i];
            match &file.content {
                Ok(bytes) => {
                    let ghost before = stdout@;
                    stdout.write(bytes.as_slice());
                    assert(stdout@ =~= old(stdout)@ + (cat_report(
                        self.files.deep_view().take(i as int),
                    ).0 + bytes@));
                },
                Err(reason) => {
                    proof {
                        lemma_cat_report_stops(self.files.deep_view(), i + 1);
                    }
                    return Err(label("cat", label(file.name.as_str(), reason.as_str()).as_str()));
                },
            }
            i += 1;
        }
        assert(self.files.deep_view().take(i as int) =~= self.files.deep_view());
        Ok(0)
    }
}

} // verus!
