//! The execution engine: it resolves the words of a command against the
//! environment, finds the command in a registry of factories, and runs the
//! stages of a pipeline one after the other, each on the output of the one
//! before it.
use crate::command::{
    ending_of, CommandFactory, Ending, ExecError, ExecErrorView, ExecutableCommand, ExitCode, Stdin,
};
use crate::env::{Environment, EnvironmentView};
use crate::external::{lemma_first_true_is_least, search_step, SearchStep};
use crate::io_adapters::{MemReader, MemWriter};
use crate::lexer::{WordPart, WordPartView};
use crate::parser::{ast_view, ast_views, AstNode, AstView, Word, WordView};
use crate::text::texts;
use vstd::prelude::*;

verus! {

// ---------------------------------------------------------------------------
// What words and assignments mean
// ---------------------------------------------------------------------------

/// The variables of an environment.
pub type Vars = Map<Seq<char>, Seq<char>>;

/// The value that a parameter reference stands for: the value of the
/// variable, or nothing where the variable is not set.
pub open spec fn param_value(vars: Vars, name: Seq<char>) -> Seq<char> {
    if vars.contains_key(name) {
        vars[name]
    } else {
        Seq::empty()
    }
}

/// The text of a sequence of parts: literal parts stand for themselves,
/// parameter references for their values. A command substitution has no
/// text, and neither has a word that holds one.
pub open spec fn resolve_parts(parts: Seq<WordPartView>, vars: Vars) -> Option<Seq<char>>
    decreases parts.len(),
{
    if parts.len() == 0 {
        Some(Seq::empty())
    } else {
        match resolve_parts(parts.drop_last(), vars) {
            None => None,
            Some(text) => match parts.last() {
                WordPartView::Literal(t) => Some(text + t),
                WordPartView::ParamSubst(name) => Some(text + param_value(vars, name)),
                WordPartView::CmdSubst(_) => None,
            },
        }
    }
}

/// The text of a word.
pub open spec fn resolve_word(word: WordView, vars: Vars) -> Option<Seq<char>> {
    match word {
        WordView::Literal(text) => Some(text),
        WordView::Compound(parts) => resolve_parts(parts, vars),
    }
}

/// The texts of a sequence of words, if each of them has one.
pub open spec fn resolve_words(words: Seq<WordView>, vars: Vars) -> Option<Seq<Seq<char>>>
    decreases words.len(),
{
    if words.len() == 0 {
        Some(Seq::empty())
    } else {
        match resolve_words(words.drop_last(), vars) {
            None => None,
            Some(texts) => match resolve_word(words.last(), vars) {
                None => None,
                Some(text) => Some(texts.push(text)),
            },
        }
    }
}

/// The variables after one assignment, whose value is resolved against
/// `source`, or `None` where the value has no text. A node that is no
/// assignment changes nothing.
pub open spec fn assign_one(node: AstView, source: Vars, target: Vars) -> Option<Vars> {
    match node {
        AstView::Assignment { name, value } => match value {
            None => Some(target.insert(name, Seq::empty())),
            Some(word) => match resolve_word(word, source) {
                None => None,
                Some(text) => Some(target.insert(name, text)),
            },
        },
        _ => Some(target),
    }
}

/// The variables after the assignments of a command that stands alone:
/// each takes effect before the next is resolved. The flag is false where
/// an assignment has no value; the variables are then those before it.
pub open spec fn assign_in_turn(nodes: Seq<AstView>, vars: Vars) -> (Vars, bool)
    decreases nodes.len(),
{
    if nodes.len() == 0 {
        (vars, true)
    } else {
        let (before, ok) = assign_in_turn(nodes.drop_last(), vars);
        if !ok {
            (before, false)
        } else {
            match assign_one(nodes.last(), before, before) {
                None => (before, false),
                Some(after) => (after, true),
            }
        }
    }
}

/// The variables of a pipeline stage after its assignments: each value is
/// resolved against the variables `shared` of the shell, none against the
/// assignments before it.
pub open spec fn assign_for_stage(nodes: Seq<AstView>, shared: Vars, local: Vars) -> Option<Vars>
    decreases nodes.len(),
{
    if nodes.len() == 0 {
        Some(local)
    } else {
        match assign_for_stage(nodes.drop_last(), shared, local) {
            None => None,
            Some(before) => assign_one(nodes.last(), shared, before),
        }
    }
}

/// What is to be run: the name of a command and its arguments.
pub struct Invocation {
    pub name: Seq<char>,
    pub args: Seq<Seq<char>>,
}

/// The invocation that the words of a command spell, the first being the
/// name, or `None` where a word has no text. There has to be a word.
pub open spec fn invocation_of(argv: Seq<WordView>, vars: Vars) -> Option<Invocation> {
    match resolve_words(argv, vars) {
        None => None,
        Some(texts) => Some(Invocation { name: texts[0], args: texts.skip(1) }),
    }
}

/// What a stage of a pipeline is to run, decided before anything runs: its
/// invocation; no invocation where the stage has no words, so that it only
/// assigns; or the error that keeps the stage from running, where a word or
/// a value has no text or the stage is no command.
pub open spec fn plan_stage(node: AstView, shared: Vars) -> Result<
    Option<Invocation>,
    ExecErrorView,
> {
    match node {
        AstView::Command { argv, assignments, redirects } => match assign_for_stage(
            assignments,
            shared,
            shared,
        ) {
            None => Err(ExecErrorView::UnsupportedSubstitution),
            Some(local) => if argv.len() == 0 {
                Ok(None)
            } else {
                match invocation_of(argv, local) {
                    None => Err(ExecErrorView::UnsupportedSubstitution),
                    Some(invocation) => Ok(Some(invocation)),
                }
            },
        },
        _ => Err(ExecErrorView::NotACommand),
    }
}

/// What a command that stands alone is to run, and the variables that its
/// assignments leave: no invocation where the command has no words, an
/// error where a word or a value has no text.
pub open spec fn plan_command(
    argv: Seq<WordView>,
    assignments: Seq<AstView>,
    vars: Vars,
) -> (Vars, Result<Option<Invocation>, ExecErrorView>) {
    let (after, ok) = assign_in_turn(assignments, vars);
    if !ok {
        (after, Err(ExecErrorView::UnsupportedSubstitution))
    } else if argv.len() == 0 {
        (after, Ok(None))
    } else {
        match invocation_of(argv, after) {
            None => (after, Err(ExecErrorView::UnsupportedSubstitution)),
            Some(invocation) => (after, Ok(Some(invocation))),
        }
    }
}

// ---------------------------------------------------------------------------
// Resolution, as a program
// ---------------------------------------------------------------------------

/// The text of a word in an environment: literal parts as they are, each
/// parameter reference replaced by the value of its variable or by nothing
/// where the variable is not set. A command substitution is refused.
pub fn word_to_string(env: &Environment, word: &Word) -> (r: Result<String, ExecError>)
    ensures
        match r {
            Ok(text) => resolve_word(word.deep_view(), env@.vars) == Some(text@),
            Err(e) => resolve_word(word.deep_view(), env@.vars) is None && e
                is UnsupportedSubstitution,
        },
{
    match word {
        Word::Literal(s) => Ok(s.clone()),
        Word::Compound(parts) => {
            let mut result = String::new();
            let mut i: usize = 0;
            while i < parts.len()
                invariant
                    i <= parts@.len(),
                    word.deep_view() == WordView::Compound(parts.deep_view()),
                    resolve_parts(parts.deep_view().take(i as int), env@.vars) == Some(result@),
                decreases parts@.len() - i,
            {
                proof {
                    assert(parts.deep_view().take(i + 1).drop_last() =~= parts.deep_view().take(
                        i as int,
                    ));
                    assert(parts.deep_view().take(i + 1).last() == parts@[i as int].deep_view());
                }
                match &parts[i] {
                    WordPart::Literal(text) => {
                        result.append(text.as_str());
                    },
                    WordPart::ParamSubst(name) => {
                        if let Some(value) = env.get_var(name.as_str()) {
                            result.append(value.as_str());
                        } else {
                            assert(result@ + Seq::<char>::empty() =~= result@);
                        }
                    },
                    WordPart::CmdSubst(_) => {
                        proof {
                            lemma_unresolved_prefix(
                                parts.deep_view(),
                                i + 1,
                                env@.vars,
                            );
                        }
                        return Err(ExecError::UnsupportedSubstitution);
                    },
                }
                i += 1;
            }
            assert(parts.deep_view().take(i as int) =~= parts.deep_view());
            Ok(result)
        },
    }
}

/// Parts have no text where a prefix of them has none.
proof fn lemma_unresolved_prefix(parts: Seq<WordPartView>, n: int, vars: Vars)
    requires
        0 <= n <= parts.len(),
        resolve_parts(parts.take(n), vars) is None,
    ensures
        resolve_parts(parts, vars) is None,
    decreases parts.len() - n,
{
    if n < parts.len() {
        assert(parts.take(n + 1).drop_last() =~= parts.take(n));
        lemma_unresolved_prefix(parts, n + 1, vars);
    } else {
        assert(parts.take(n) =~= parts);
    }
}

/// The texts of parts, one after the other, where all of them are
/// literals.
pub open spec fn literal_text(parts: Seq<WordPartView>) -> Seq<char>
    decreases parts.len(),
{
    if parts.len() == 0 {
        Seq::empty()
    } else {
        literal_text(parts.drop_last()) + parts.last()->Literal_0
    }
}

/// Parts that are all literals have a text in every environment: their
/// texts, one after the other.
pub proof fn lemma_literals_resolve(parts: Seq<WordPartView>, vars: Vars)
    requires
        forall|i: int| 0 <= i < parts.len() ==> (#[trigger] parts[i]) is Literal,
    ensures
        resolve_parts(parts, vars) == Some(literal_text(parts)),
    decreases parts.len(),
{
    if parts.len() > 0 {
        assert forall|i: int| 0 <= i < parts.drop_last().len() implies (
        #[trigger] parts.drop_last()[i]) is Literal by {
            assert(parts.drop_last()[i] == parts[i]);
        }
        lemma_literals_resolve(parts.drop_last(), vars);
        assert(parts.last() == parts[parts.len() - 1]);
    }
}

/// Words have no texts where a prefix of them has none.
proof fn lemma_unresolved_words(words: Seq<WordView>, n: int, vars: Vars)
    requires
        0 <= n <= words.len(),
        resolve_words(words.take(n), vars) is None,
    ensures
        resolve_words(words, vars) is None,
    decreases words.len() - n,
{
    if n < words.len() {
        assert(words.take(n + 1).drop_last() =~= words.take(n));
        lemma_unresolved_words(words, n + 1, vars);
    } else {
        assert(words.take(n) =~= words);
    }
}

/// The texts of the words of a command, in order.
pub fn words_to_strings(env: &Environment, words: &Vec<Word>) -> (r: Result<
    Vec<String>,
    ExecError,
>)
    ensures
        match r {
            Ok(strings) => resolve_words(words.deep_view(), env@.vars) == Some(texts(strings@)),
            Err(e) => resolve_words(words.deep_view(), env@.vars) is None && e
                is UnsupportedSubstitution,
        },
{
    let mut strings: Vec<String> = Vec::new();
    let mut i: usize = 0;
    assert(texts(strings@) =~= Seq::<Seq<char>>::empty());
    while i < words.len()
        invariant
            i <= words@.len(),
            resolve_words(words.deep_view().take(i as int), env@.vars) == Some(texts(strings@)),
        decreases words@.len() - i,
    {
        proof {
            assert(words.deep_view().take(i + 1).drop_last() =~= words.deep_view().take(i as int));
            assert(words.deep_view().take(i + 1).last() == words@[i as int].deep_view());
        }
        match word_to_string(env, &words[i]) {
            Ok(text) => {
                let ghost before = texts(strings@);
                strings.push(text);
                assert(texts(strings@) =~= before.push(text@));
            },
            Err(e) => {
                proof {
                    lemma_unresolved_words(words.deep_view(), i + 1, env@.vars);
                }
                return Err(e);
            },
        }
        i += 1;
    }
    assert(words.deep_view().take(i as int) =~= words.deep_view());
    Ok(strings)
}

/// Carries out the assignments of a command that stands alone, in order,
/// on the environment itself. It stops at the first assignment whose value
/// has no text.
pub fn apply_assignments(env: &mut Environment, assignments: &Vec<AstNode>) -> (r: Result<
    (),
    ExecError,
>)
    ensures
        (final(env)@.vars, r is Ok) == assign_in_turn(ast_views(assignments@), old(env)@.vars),
        final(env)@.current_dir == old(env)@.current_dir,
        final(env)@.should_exit == old(env)@.should_exit,
        r matches Err(e) ==> e is UnsupportedSubstitution,
{
    let mut i: usize = 0;
    while i < assignments.len()
        invariant
            i <= assignments@.len(),
            (env@.vars, true) == assign_in_turn(
                ast_views(assignments@).take(i as int),
                old(env)@.vars,
            ),
            env@.current_dir == old(env)@.current_dir,
            env@.should_exit == old(env)@.should_exit,
        decreases assignments@.len() - i,
    {
        proof {
            let nodes = ast_views(assignments@);
            assert(nodes.take(i + 1).drop_last() =~= nodes.take(i as int));
            assert(nodes.take(i + 1).last() == ast_view(assignments@[i as int]));
        }
        if let AstNode::Assignment { name, value } = &assignments[i] {
            let text = match value {
                Some(word) => match word_to_string(env, word) {
                    Ok(text) => text,
                    Err(e) => {
                        proof {
                            lemma_assignments_stop(
                                ast_views(assignments@),
                                i + 1,
                                old(env)@.vars,
                            );
                        }
                        return Err(e);
                    },
                },
                None => String::new(),
            };
            env.set_var(name.as_str(), text.as_str());
        }
        i += 1;
    }
    assert(ast_views(assignments@).take(i as int) =~= ast_views(assignments@));
    Ok(())
}

/// Assignments that fail on a prefix fail as a whole, and leave the
/// variables that the prefix left.
proof fn lemma_assignments_stop(nodes: Seq<AstView>, n: int, vars: Vars)
    requires
        0 <= n <= nodes.len(),
        !assign_in_turn(nodes.take(n), vars).1,
    ensures
        assign_in_turn(nodes, vars) == assign_in_turn(nodes.take(n), vars),
    decreases nodes.len() - n,
{
    if n < nodes.len() {
        assert(nodes.take(n + 1).drop_last() =~= nodes.take(n));
        lemma_assignments_stop(nodes, n + 1, vars);
    } else {
        assert(nodes.take(n) =~= nodes);
    }
}

/// Stage assignments that fail on a prefix fail as a whole.
proof fn lemma_stage_assignments_stop(nodes: Seq<AstView>, n: int, shared: Vars, local: Vars)
    requires
        0 <= n <= nodes.len(),
        assign_for_stage(nodes.take(n), shared, local) is None,
    ensures
        assign_for_stage(nodes, shared, local) is None,
    decreases nodes.len() - n,
{
    if n < nodes.len() {
        assert(nodes.take(n + 1).drop_last() =~= nodes.take(n));
        lemma_stage_assignments_stop(nodes, n + 1, shared, local);
    } else {
        assert(nodes.take(n) =~= nodes);
    }
}

/// The environment of a pipeline stage: a copy of the shell's, with the
/// assignments of the stage carried out on the copy. The values are
/// resolved against the environment of the shell.
pub fn stage_environment(shared: &Environment, assignments: &Vec<AstNode>) -> (r: Result<
    Environment,
    ExecError,
>)
    ensures
        match r {
            Ok(local) => {
                &&& assign_for_stage(ast_views(assignments@), shared@.vars, shared@.vars) == Some(
                    local@.vars,
                )
                &&& local@.current_dir == shared@.current_dir
                &&& local@.should_exit == shared@.should_exit
            },
            Err(e) => assign_for_stage(ast_views(assignments@), shared@.vars, shared@.vars)
                is None && e is UnsupportedSubstitution,
        },
{
    let mut local = shared.clone();
    let mut i: usize = 0;
    while i < assignments.len()
        invariant
            i <= assignments@.len(),
            assign_for_stage(
                ast_views(assignments@).take(i as int),
                shared@.vars,
                shared@.vars,
            ) == Some(local@.vars),
            local@.current_dir == shared@.current_dir,
            local@.should_exit == shared@.should_exit,
        decreases assignments@.len() - i,
    {
        proof {
            let nodes = ast_views(assignments@);
            assert(nodes.take(i + 1).drop_last() =~= nodes.take(i as int));
            assert(nodes.take(i + 1).last() == ast_view(assignments@[i as int]));
        }
        if let AstNode::Assignment { name, value } = &assignments[i] {
            let text = match value {
                Some(word) => match word_to_string(shared, word) {
                    Ok(text) => text,
                    Err(e) => {
                        proof {
                            lemma_stage_assignments_stop(
                                ast_views(assignments@),
                                i + 1,
                                shared@.vars,
                                shared@.vars,
                            );
                        }
                        return Err(e);
                    },
                },
                None => String::new(),
            };
            local.set_var(name.as_str(), text.as_str());
        }
        i += 1;
    }
    assert(ast_views(assignments@).take(i as int) =~= ast_views(assignments@));
    Ok(local)
}

/// The name and the arguments that the words of a command spell.
fn invocation(env: &Environment, argv: &Vec<Word>) -> (r: Result<
    (String, Vec<String>),
    ExecError,
>)
    requires
        argv@.len() > 0,
    ensures
        match r {
            Ok((name, args)) => invocation_of(argv.deep_view(), env@.vars) == Some(
                Invocation { name: name@, args: texts(args@) },
            ),
            Err(e) => invocation_of(argv.deep_view(), env@.vars) is None && e
                is UnsupportedSubstitution,
        },
{
    let mut strings = words_to_strings(env, argv)?;
    proof {
        lemma_resolved_length(argv.deep_view(), env@.vars);
    }
    let ghost all = texts(strings@);
    let name = strings.remove(0);
    assert(texts(strings@) =~= all.skip(1));
    Ok((name, strings))
}

/// Words that have texts have one text each.
proof fn lemma_resolved_length(words: Seq<WordView>, vars: Vars)
    requires
        resolve_words(words, vars) is Some,
    ensures
        resolve_words(words, vars)->0.len() == words.len(),
    decreases words.len(),
{
    if words.len() > 0 {
        lemma_resolved_length(words.drop_last(), vars);
    }
}

/// What a stage of a pipeline is to run, decided against the environment of
/// the shell before the stage runs: a name and its arguments, or nothing
/// where the stage has no words.
pub fn plan_pipeline_stage(shared: &Environment, node: &AstNode) -> (r: Result<
    Option<(String, Vec<String>)>,
    ExecError,
>)
    ensures
        match r {
            Ok(Some((name, args))) => plan_stage(node.deep_view(), shared@.vars) == Ok::<
                Option<Invocation>,
                ExecErrorView,
            >(Some(Invocation { name: name@, args: texts(args@) })),
            Ok(None) => plan_stage(node.deep_view(), shared@.vars) == Ok::<
                Option<Invocation>,
                ExecErrorView,
            >(None),
            Err(e) => plan_stage(node.deep_view(), shared@.vars) == Err::<
                Option<Invocation>,
                ExecErrorView,
            >(e.deep_view()),
        },
{
    match node {
        AstNode::Command { argv, assignments, redirects: _ } => {
            let local = stage_environment(shared, assignments)?;
            if argv.len() == 0 {
                return Ok(None);
            }
            match invocation(&local, argv) {
                Ok(planned) => Ok(Some(planned)),
                Err(e) => Err(e),
            }
        },
        _ => Err(ExecError::NotACommand),
    }
}

// ---------------------------------------------------------------------------
// What passes between the stages of a pipeline
// ---------------------------------------------------------------------------

/// What a pipeline carries from one stage to the next: the output of the
/// stage that ran last, until the next stage takes it as its input, and
/// the exit code of that stage.
#[derive(Debug)]
pub struct Relay {
    previous_output: Option<Vec<u8>>,
    last_exit: ExitCode,
}

/// The mathematical value of a [`Relay`].
pub struct RelayView {
    /// What the stage that ran last wrote, if a stage ran and nothing has
    /// taken its output yet.
    pub previous_output: Option<Seq<u8>>,
    /// The exit code of the stage that ran last, 0 before the first.
    pub last_exit: ExitCode,
}

impl View for Relay {
    type V = RelayView;

    closed spec fn view(&self) -> RelayView {
        RelayView {
            previous_output: match self.previous_output {
                Some(bytes) => Some(bytes@),
                None => None,
            },
            last_exit: self.last_exit,
        }
    }
}

impl Relay {
    /// The relay before the first stage: no output, exit code 0.
    pub fn new() -> (relay: Relay)
        ensures
            relay@ == (RelayView { previous_output: None, last_exit: 0 }),
    {
        Relay { previous_output: None, last_exit: 0 }
    }

    /// The input of the next stage: what the stage before it wrote, or the
    /// input of the shell for the first stage. The output is handed over:
    /// the relay does not keep it.
    pub fn take_input(&mut self) -> (stdin: Stdin)
        ensures
            stdin@ == old(self)@.previous_output,
            final(self)@ == (RelayView { previous_output: None, last_exit: old(self)@.last_exit }),
    {
        let mut taken: Option<Vec<u8>> = None;
        std::mem::swap(&mut self.previous_output, &mut taken);
        match taken {
            Some(bytes) => Stdin::Piped(MemReader::new(bytes)),
            None => Stdin::Inherited,
        }
    }

    /// Records that a stage has run: its exit code and what it wrote.
    pub fn record(&mut self, code: ExitCode, output: Vec<u8>)
        ensures
            final(self)@ == (RelayView { previous_output: Some(output@), last_exit: code }),
    {
        self.previous_output = Some(output);
        self.last_exit = code;
    }

    /// Ends the pipeline: what the last stage wrote is appended to the
    /// final output, and its exit code is returned.
    pub fn finish(self, final_stdout: &mut MemWriter) -> (code: ExitCode)
        ensures
            code == self@.last_exit,
            final(final_stdout)@ == old(final_stdout)@ + match self@.previous_output {
                Some(bytes) => bytes,
                None => Seq::<u8>::empty(),
            },
    {
        match self.previous_output {
            Some(bytes) => {
                final_stdout.write(bytes.as_slice());
            },
            None => {
                assert(final_stdout@ + Seq::<u8>::empty() =~= final_stdout@);
            },
        }
        self.last_exit
    }
}

// ---------------------------------------------------------------------------
// What the registry and the commands may do
// ---------------------------------------------------------------------------

/// A registry: factories, in the order in which they are asked.
pub type Registry = Seq<Box<dyn CommandFactory>>;

/// Whether the registry, asked for a command, may answer with `made`: a
/// command is the answer of a factory before which every factory may
/// decline, and there is no command only where every factory may decline.
pub open spec fn may_create(
    registry: Registry,
    env: EnvironmentView,
    name: Seq<char>,
    args: Seq<Seq<char>>,
    made: Option<Box<dyn ExecutableCommand>>,
) -> bool {
    match made {
        Some(_) => exists|k: int|
            0 <= k < registry.len() && (#[trigger] registry[k]).may_make(env, name, args, made)
                && forall|j: int|
                0 <= j < k ==> (#[trigger] registry[j]).may_make(env, name, args, None),
        None => forall|j: int|
            0 <= j < registry.len() ==> (#[trigger] registry[j]).may_make(env, name, args, None),
    }
}

/// Whether no factory of the registry may make a command of this name.
pub open spec fn all_decline(
    registry: Registry,
    env: EnvironmentView,
    name: Seq<char>,
    args: Seq<Seq<char>>,
) -> bool {
    forall|j: int, made: Option<Box<dyn ExecutableCommand>>|
        0 <= j < registry.len() && made is Some ==> !(#[trigger] registry[j].may_make(
            env,
            name,
            args,
            made,
        ))
}

/// What running a command by name may come to: the registry makes a
/// command, and its run comes to this; or the registry makes none, and the
/// ending is `CommandNotFound` with the name, with nothing changed.
pub open spec fn may_run_command(
    registry: Registry,
    env: EnvironmentView,
    name: Seq<char>,
    args: Seq<Seq<char>>,
    stdin: Option<Seq<u8>>,
    stdout: Seq<u8>,
    ending: Ending,
    stdout_after: Seq<u8>,
    env_after: EnvironmentView,
) -> bool {
    exists|made: Option<Box<dyn ExecutableCommand>>| #[trigger]
        may_create(registry, env, name, args, made) && match made {
            Some(command) => command.may_run(stdin, stdout, env, ending, stdout_after, env_after),
            None => ending == Err::<ExitCode, ExecErrorView>(ExecErrorView::CommandNotFound(name))
                && stdout_after == stdout && env_after == env,
        }
}

/// How a stage of a pipeline ends: with its exit code and what it wrote,
/// or with the error that stops the pipeline.
pub type StageEnding = Result<(ExitCode, Seq<u8>), ExecErrorView>;

/// The stage ending that a result stands for.
pub open spec fn stage_ending_of(r: Result<(ExitCode, Vec<u8>), ExecError>) -> StageEnding {
    match r {
        Ok((code, bytes)) => Ok((code, bytes@)),
        Err(e) => Err(e.deep_view()),
    }
}

/// What a stage that runs the command `name` may end with: the run of the
/// command that the registry makes, on `stdin` and an empty output, ends
/// with this code and has written these bytes, or ends with this error.
pub open spec fn may_end_stage(
    registry: Registry,
    env: EnvironmentView,
    name: Seq<char>,
    args: Seq<Seq<char>>,
    stdin: Option<Seq<u8>>,
    ending: StageEnding,
) -> bool {
    exists|ran: Ending, written: Seq<u8>, env_after: EnvironmentView| #[trigger]
        may_run_command(
            registry,
            env,
            name,
            args,
            stdin,
            Seq::<u8>::empty(),
            ran,
            written,
            env_after,
        ) && match ran {
            Ok(code) => ending == Ok::<(ExitCode, Seq<u8>), ExecErrorView>((code, written)),
            Err(e) => ending == Err::<(ExitCode, Seq<u8>), ExecErrorView>(e),
        }
}

/// What a stage of a pipeline may end with, reading `stdin`: the error
/// that keeps it from running, see [`plan_stage`]; the code 0 with nothing
/// written, where it has no words, and then no factory is asked; or what
/// running its command may end with.
pub open spec fn may_run_stage(
    registry: Registry,
    env: EnvironmentView,
    node: AstView,
    stdin: Option<Seq<u8>>,
    ending: StageEnding,
) -> bool {
    match plan_stage(node, env.vars) {
        Err(defect) => ending == Err::<(ExitCode, Seq<u8>), ExecErrorView>(defect),
        Ok(None) => ending == Ok::<(ExitCode, Seq<u8>), ExecErrorView>((0, Seq::empty())),
        Ok(Some(planned)) => may_end_stage(
            registry,
            env,
            planned.name,
            planned.args,
            stdin,
            ending,
        ),
    }
}

/// Whether the first `n` stages of a pipeline may all run, the last of
/// them having written `output`: each stage reads what the stage before it
/// wrote, and the first reads the input of the shell. Before any stage has
/// run there is no output.
pub open spec fn may_pass(
    registry: Registry,
    env: EnvironmentView,
    stages: Seq<AstView>,
    n: int,
    output: Option<Seq<u8>>,
) -> bool
    decreases n,
{
    if n <= 0 {
        output is None
    } else {
        &&& output is Some
        &&& exists|input: Option<Seq<u8>>, code: ExitCode|
            may_pass(registry, env, stages, n - 1, input) && #[trigger] may_run_stage(
                registry,
                env,
                stages[n - 1],
                input,
                Ok::<(ExitCode, Seq<u8>), ExecErrorView>((code, output->Some_0)),
            )
    }
}

/// Whether the first `n` stages of a pipeline may all run, the last of
/// them ending with `code` and having written `output`. Before any stage
/// has run, the code is 0 and there is no output.
pub open spec fn may_reach(
    registry: Registry,
    env: EnvironmentView,
    stages: Seq<AstView>,
    n: int,
    code: ExitCode,
    output: Option<Seq<u8>>,
) -> bool {
    if n <= 0 {
        code == 0 && output is None
    } else {
        &&& output is Some
        &&& exists|input: Option<Seq<u8>>|
            may_pass(registry, env, stages, n - 1, input) && #[trigger] may_run_stage(
                registry,
                env,
                stages[n - 1],
                input,
                Ok::<(ExitCode, Seq<u8>), ExecErrorView>((code, output->Some_0)),
            )
    }
}

/// Whether a pipeline may fail with the error `e`: some stage may end
/// with it after the stages before it have run.
pub open spec fn may_fail(
    registry: Registry,
    env: EnvironmentView,
    stages: Seq<AstView>,
    e: ExecErrorView,
) -> bool {
    exists|k: int, input: Option<Seq<u8>>|
        0 <= k < stages.len() && may_pass(registry, env, stages, k, input)
            && #[trigger] may_run_stage(
            registry,
            env,
            stages[k],
            input,
            Err::<(ExitCode, Seq<u8>), ExecErrorView>(e),
        )
}

/// What a pipeline may end with: `EmptyPipeline` where it has no stage;
/// the code and the output of its last stage where all stages run; the
/// error of the first stage that fails.
pub open spec fn may_run_pipeline(
    registry: Registry,
    env: EnvironmentView,
    stages: Seq<AstView>,
    ending: StageEnding,
) -> bool {
    if stages.len() == 0 {
        ending == Err::<(ExitCode, Seq<u8>), ExecErrorView>(ExecErrorView::EmptyPipeline)
    } else {
        match ending {
            Ok((code, written)) => may_reach(
                registry,
                env,
                stages,
                stages.len() as int,
                code,
                Some(written),
            ),
            Err(e) => may_fail(registry, env, stages, e),
        }
    }
}

/// What running a pipeline comes to: it ends with a code, and what its
/// last stage wrote is appended to the final output; or it ends with an
/// error, and the final output stays.
pub open spec fn pipeline_comes_to(
    registry: Registry,
    env: EnvironmentView,
    stages: Seq<AstView>,
    ending: Ending,
    stdout: Seq<u8>,
    stdout_after: Seq<u8>,
) -> bool {
    match ending {
        Ok(code) => exists|written: Seq<u8>| #[trigger]
            may_run_pipeline(
                registry,
                env,
                stages,
                Ok::<(ExitCode, Seq<u8>), ExecErrorView>((code, written)),
            ) && stdout_after == stdout + written,
        Err(e) => may_run_pipeline(
            registry,
            env,
            stages,
            Err::<(ExitCode, Seq<u8>), ExecErrorView>(e),
        ) && stdout_after == stdout,
    }
}

/// A pipeline whose last stage ended with `code`, having written `written`,
/// comes to that code with `written` appended.
proof fn lemma_pipeline_ended(
    registry: Registry,
    env: EnvironmentView,
    stages: Seq<AstView>,
    code: ExitCode,
    written: Seq<u8>,
    stdout: Seq<u8>,
    stdout_after: Seq<u8>,
)
    requires
        may_run_pipeline(
            registry,
            env,
            stages,
            Ok::<(ExitCode, Seq<u8>), ExecErrorView>((code, written)),
        ),
        stdout_after == stdout + written,
    ensures
        pipeline_comes_to(
            registry,
            env,
            stages,
            Ok::<ExitCode, ExecErrorView>(code),
            stdout,
            stdout_after,
        ),
{
    let ending = Ok::<ExitCode, ExecErrorView>(code);
    assert(ending matches Ok(c) && c == code);
    assert(exists|w: Seq<u8>| #[trigger]
        may_run_pipeline(registry, env, stages, Ok::<(ExitCode, Seq<u8>), ExecErrorView>((code, w)))
            && stdout_after == stdout + w);
}

/// What running a command that stands alone comes to. Its assignments
/// are carried out first and stay, see [`plan_command`]. Then:
/// - an error of the plan is the ending, and the output stays;
/// - with no word the ending is 0, and the output stays;
/// - else the command runs on the input of the shell in the environment
///   that the assignments left, and what it wrote is appended to the final
///   output if it ends with a code; the environment is as it left it.
pub open spec fn command_comes_to(
    registry: Registry,
    env: EnvironmentView,
    argv: Seq<WordView>,
    assignments: Seq<AstView>,
    ending: Ending,
    stdout: Seq<u8>,
    stdout_after: Seq<u8>,
    env_after: EnvironmentView,
) -> bool {
    let (vars, plan) = plan_command(argv, assignments, env.vars);
    let assigned = EnvironmentView { vars, ..env };
    match plan {
        Err(defect) => ending == Err::<ExitCode, ExecErrorView>(defect) && stdout_after == stdout
            && env_after == assigned,
        Ok(None) => ending == Ok::<ExitCode, ExecErrorView>(0) && stdout_after == stdout
            && env_after == assigned,
        Ok(Some(planned)) => exists|written: Seq<u8>| #[trigger]
            may_run_command(
                registry,
                assigned,
                planned.name,
                planned.args,
                None,
                Seq::<u8>::empty(),
                ending,
                written,
                env_after,
            ) && stdout_after == if ending is Ok {
                stdout + written
            } else {
                stdout
            },
    }
}

/// Whether a stage of a pipeline can run at all: it has a plan, and some
/// factory of the registry may make the command that the plan names, if it
/// names one.
pub open spec fn stage_is_known(registry: Registry, env: EnvironmentView, node: AstView) -> bool {
    match plan_stage(node, env.vars) {
        Err(_) => false,
        Ok(None) => true,
        Ok(Some(planned)) => !all_decline(registry, env, planned.name, planned.args),
    }
}

/// A name of which every factory declines is an unknown command: running
/// it ends with `CommandNotFound` and that name, and changes nothing.
pub proof fn lemma_declined_is_unknown(
    registry: Registry,
    env: EnvironmentView,
    name: Seq<char>,
    args: Seq<Seq<char>>,
    stdin: Option<Seq<u8>>,
    stdout: Seq<u8>,
    ending: Ending,
    stdout_after: Seq<u8>,
    env_after: EnvironmentView,
)
    requires
        all_decline(registry, env, name, args),
        may_run_command(registry, env, name, args, stdin, stdout, ending, stdout_after, env_after),
    ensures
        ending == Err::<ExitCode, ExecErrorView>(ExecErrorView::CommandNotFound(name)),
        stdout_after == stdout,
        env_after == env,
{
    let made = choose|made: Option<Box<dyn ExecutableCommand>>| #[trigger]
        may_create(registry, env, name, args, made) && match made {
            Some(command) => command.may_run(stdin, stdout, env, ending, stdout_after, env_after),
            None => ending == Err::<ExitCode, ExecErrorView>(ExecErrorView::CommandNotFound(name))
                && stdout_after == stdout && env_after == env,
        };
    if made is Some {
        let k = choose|k: int|
            0 <= k < registry.len() && (#[trigger] registry[k]).may_make(env, name, args, made);
        assert(!registry[k].may_make(env, name, args, made));
    }
}

/// A stage whose command every factory declines ends with
/// `CommandNotFound` and the name of that command, whatever it reads.
pub proof fn lemma_declined_stage_is_unknown(
    registry: Registry,
    env: EnvironmentView,
    node: AstView,
    stdin: Option<Seq<u8>>,
    ending: StageEnding,
)
    requires
        may_run_stage(registry, env, node, stdin, ending),
        plan_stage(node, env.vars) matches Ok(Some(_)),
        all_decline(
            registry,
            env,
            plan_stage(node, env.vars)->Ok_0->Some_0.name,
            plan_stage(node, env.vars)->Ok_0->Some_0.args,
        ),
    ensures
        ending == Err::<(ExitCode, Seq<u8>), ExecErrorView>(
            ExecErrorView::CommandNotFound(plan_stage(node, env.vars)->Ok_0->Some_0.name),
        ),
{
    let planned = plan_stage(node, env.vars)->Ok_0->Some_0;
    let (ran, written, env_after) = choose|
        ran: Ending,
        written: Seq<u8>,
        env_after: EnvironmentView,
    | #[trigger]
        may_run_command(
            registry,
            env,
            planned.name,
            planned.args,
            stdin,
            Seq::<u8>::empty(),
            ran,
            written,
            env_after,
        ) && match ran {
            Ok(code) => ending == Ok::<(ExitCode, Seq<u8>), ExecErrorView>((code, written)),
            Err(e) => ending == Err::<(ExitCode, Seq<u8>), ExecErrorView>(e),
        };
    lemma_declined_is_unknown(
        registry,
        env,
        planned.name,
        planned.args,
        stdin,
        Seq::<u8>::empty(),
        ran,
        written,
        env_after,
    );
}

/// Every stage that a pipeline has passed could run: it had a plan, and a
/// factory that may make its command if it has one.
pub proof fn lemma_passed_stages_are_known(
    registry: Registry,
    env: EnvironmentView,
    stages: Seq<AstView>,
    n: int,
    output: Option<Seq<u8>>,
)
    requires
        may_pass(registry, env, stages, n, output),
    ensures
        forall|i: int| 0 <= i < n ==> stage_is_known(registry, env, #[trigger] stages[i]),
    decreases n,
{
    if n > 0 {
        let (input, code) = choose|input: Option<Seq<u8>>, code: ExitCode|
            may_pass(registry, env, stages, n - 1, input) && #[trigger] may_run_stage(
                registry,
                env,
                stages[n - 1],
                input,
                Ok::<(ExitCode, Seq<u8>), ExecErrorView>((code, output->Some_0)),
            );
        lemma_passed_stages_are_known(registry, env, stages, n - 1, input);
        let node = stages[n - 1];
        if let Ok(Some(planned)) = plan_stage(node, env.vars) {
            if all_decline(registry, env, planned.name, planned.args) {
                lemma_declined_stage_is_unknown(
                    registry,
                    env,
                    node,
                    input,
                    Ok::<(ExitCode, Seq<u8>), ExecErrorView>((code, output->Some_0)),
                );
            }
        }
    }
}

/// A pipeline that ends with a code has run every stage: each had a plan
/// and, if it names a command, a factory that may make it. And a pipeline
/// whose first stage cannot run ends with the error of that stage: the
/// defect of its plan, or `CommandNotFound` with its name where every
/// factory declines.
pub proof fn lemma_pipeline_endings(
    registry: Registry,
    env: EnvironmentView,
    stages: Seq<AstView>,
    ending: StageEnding,
)
    requires
        may_run_pipeline(registry, env, stages, ending),
    ensures
        ending is Ok ==> stages.len() > 0 && forall|i: int|
            0 <= i < stages.len() ==> stage_is_known(registry, env, #[trigger] stages[i]),
        stages.len() > 0 ==> match plan_stage(stages[0], env.vars) {
            Err(defect) => ending == Err::<(ExitCode, Seq<u8>), ExecErrorView>(defect),
            Ok(None) => true,
            Ok(Some(planned)) => all_decline(registry, env, planned.name, planned.args) ==> ending
                == Err::<(ExitCode, Seq<u8>), ExecErrorView>(
                ExecErrorView::CommandNotFound(planned.name),
            ),
        },
{
    if stages.len() > 0 {
        match ending {
            Ok((code, written)) => {
                let n = stages.len() as int;
                let input = choose|input: Option<Seq<u8>>|
                    may_pass(registry, env, stages, n - 1, input) && #[trigger] may_run_stage(
                        registry,
                        env,
                        stages[n - 1],
                        input,
                        Ok::<(ExitCode, Seq<u8>), ExecErrorView>((code, Some(written)->Some_0)),
                    );
                assert(may_pass(registry, env, stages, n, Some(written)));
                lemma_passed_stages_are_known(registry, env, stages, n, Some(written));
            },
            Err(e) => {
                let (k, input) = choose|k: int, input: Option<Seq<u8>>|
                    0 <= k < stages.len() && may_pass(registry, env, stages, k, input)
                        && #[trigger] may_run_stage(
                        registry,
                        env,
                        stages[k],
                        input,
                        Err::<(ExitCode, Seq<u8>), ExecErrorView>(e),
                    );
                if k > 0 {
                    lemma_passed_stages_are_known(registry, env, stages, k, input);
                    assert(stage_is_known(registry, env, stages[0]));
                } else {
                    if let Ok(Some(planned)) = plan_stage(stages[0], env.vars) {
                        if all_decline(registry, env, planned.name, planned.args) {
                            lemma_declined_stage_is_unknown(
                                registry,
                                env,
                                stages[0],
                                input,
                                Err::<(ExitCode, Seq<u8>), ExecErrorView>(e),
                            );
                        }
                    }
                }
            },
        }
    }
}

/// Whether the factory at `k` knows the name: asked for it, it never
/// declines.
pub open spec fn knows(
    registry: Registry,
    k: int,
    env: EnvironmentView,
    name: Seq<char>,
    args: Seq<Seq<char>>,
) -> bool {
    !registry[k].may_make(env, name, args, None)
}

/// Whether the factory at `j` does not know the name: asked for it, it
/// always declines.
pub open spec fn declines(
    registry: Registry,
    j: int,
    env: EnvironmentView,
    name: Seq<char>,
    args: Seq<Seq<char>>,
) -> bool {
    forall|made: Option<Box<dyn ExecutableCommand>>|
        made is Some ==> !#[trigger] registry[j].may_make(env, name, args, made)
}

/// The first factory that knows the name wins: where the factory at `k`
/// knows the name and no factory before it does, the registry makes a
/// command, and it is one that the factory at `k` may make.
pub proof fn lemma_first_match_wins(
    registry: Registry,
    env: EnvironmentView,
    name: Seq<char>,
    args: Seq<Seq<char>>,
    k: int,
    made: Option<Box<dyn ExecutableCommand>>,
)
    requires
        0 <= k < registry.len(),
        knows(registry, k, env, name, args),
        forall|j: int| 0 <= j < k ==> #[trigger] declines(registry, j, env, name, args),
        may_create(registry, env, name, args, made),
    ensures
        made is Some,
        registry[k].may_make(env, name, args, made),
{
    let none: Option<Box<dyn ExecutableCommand>> = None;
    match made {
        Some(_) => {
            let at = choose|at: int|
                0 <= at < registry.len() && (#[trigger] registry[at]).may_make(
                    env,
                    name,
                    args,
                    made,
                ) && forall|j: int|
                    0 <= j < at ==> (#[trigger] registry[j]).may_make(env, name, args, none);
            if at < k {
                assert(declines(registry, at, env, name, args));
                assert(!registry[at].may_make(env, name, args, made));
            } else if at > k {
                assert(registry[k].may_make(env, name, args, none));
            }
        },
        None => {
            assert(registry[k].may_make(env, name, args, none));
        },
    }
}

/// A stage whose command is made by the first factory that knows its
/// name can only end as the commands of that factory can: where every
/// command that the factory may make, reading `input` with nothing written
/// yet, can only end with `code` having written `output`, so can the stage.
pub proof fn lemma_stage_of_first_match(
    registry: Registry,
    env: EnvironmentView,
    node: AstView,
    input: Option<Seq<u8>>,
    k: int,
    code: ExitCode,
    output: Seq<u8>,
)
    requires
        plan_stage(node, env.vars) matches Ok(Some(_)),
        0 <= k < registry.len(),
        knows(
            registry,
            k,
            env,
            plan_stage(node, env.vars)->Ok_0->Some_0.name,
            plan_stage(node, env.vars)->Ok_0->Some_0.args,
        ),
        forall|j: int|
            0 <= j < k ==> #[trigger] declines(
                registry,
                j,
                env,
                plan_stage(node, env.vars)->Ok_0->Some_0.name,
                plan_stage(node, env.vars)->Ok_0->Some_0.args,
            ),
        forall|
            made: Option<Box<dyn ExecutableCommand>>,
            ending: Ending,
            written: Seq<u8>,
            env_after: EnvironmentView,
        |
            made is Some && registry[k].may_make(
                env,
                plan_stage(node, env.vars)->Ok_0->Some_0.name,
                plan_stage(node, env.vars)->Ok_0->Some_0.args,
                made,
            ) && #[trigger] made->Some_0.may_run(
                input,
                Seq::<u8>::empty(),
                env,
                ending,
                written,
                env_after,
            ) ==> ending == Ok::<ExitCode, ExecErrorView>(code) && written == output,
    ensures
        stage_yields(registry, env, node, input, code, output),
{
    let planned = plan_stage(node, env.vars)->Ok_0->Some_0;
    assert forall|ending: StageEnding| #[trigger]
        may_run_stage(registry, env, node, input, ending) implies ending == Ok::<
        (ExitCode, Seq<u8>),
        ExecErrorView,
    >((code, output)) by {
        let (ran, written, env_after) = choose|
            ran: Ending,
            written: Seq<u8>,
            env_after: EnvironmentView,
        | #[trigger]
            may_run_command(
                registry,
                env,
                planned.name,
                planned.args,
                input,
                Seq::<u8>::empty(),
                ran,
                written,
                env_after,
            ) && match ran {
                Ok(c) => ending == Ok::<(ExitCode, Seq<u8>), ExecErrorView>((c, written)),
                Err(e) => ending == Err::<(ExitCode, Seq<u8>), ExecErrorView>(e),
            };
        let made = choose|made: Option<Box<dyn ExecutableCommand>>| #[trigger]
            may_create(registry, env, planned.name, planned.args, made) && match made {
                Some(command) => command.may_run(
                    input,
                    Seq::<u8>::empty(),
                    env,
                    ran,
                    written,
                    env_after,
                ),
                None => ran == Err::<ExitCode, ExecErrorView>(
                    ExecErrorView::CommandNotFound(planned.name),
                ) && written == Seq::<u8>::empty() && env_after == env,
            };
        lemma_first_match_wins(registry, env, planned.name, planned.args, k, made);
        assert(made->Some_0.may_run(input, Seq::<u8>::empty(), env, ran, written, env_after));
    }
}

/// Whether a stage cannot fail, whatever it reads: it has a plan, and if
/// the plan names a command, the registry makes it and no run of it ends in
/// an error.
pub open spec fn never_fails(registry: Registry, env: EnvironmentView, node: AstView) -> bool {
    forall|input: Option<Seq<u8>>, e: ExecErrorView|
        !#[trigger] may_run_stage(
            registry,
            env,
            node,
            input,
            Err::<(ExitCode, Seq<u8>), ExecErrorView>(e),
        )
}

/// A pipeline in which a stage names a command that every factory
/// declines, after stages that cannot fail, ends with `CommandNotFound` and
/// the name of that command: the stages after it do not matter, and the
/// pipeline never ends with an exit code.
pub proof fn lemma_unknown_stage_ends_pipeline(
    registry: Registry,
    env: EnvironmentView,
    stages: Seq<AstView>,
    k: int,
    ending: StageEnding,
)
    requires
        may_run_pipeline(registry, env, stages, ending),
        0 <= k < stages.len(),
        forall|j: int| 0 <= j < k ==> never_fails(registry, env, #[trigger] stages[j]),
        plan_stage(stages[k], env.vars) matches Ok(Some(_)),
        all_decline(
            registry,
            env,
            plan_stage(stages[k], env.vars)->Ok_0->Some_0.name,
            plan_stage(stages[k], env.vars)->Ok_0->Some_0.args,
        ),
    ensures
        ending == Err::<(ExitCode, Seq<u8>), ExecErrorView>(
            ExecErrorView::CommandNotFound(plan_stage(stages[k], env.vars)->Ok_0->Some_0.name),
        ),
{
    lemma_pipeline_endings(registry, env, stages, ending);
    match ending {
        Ok(_) => {
            assert(stage_is_known(registry, env, stages[k]));
        },
        Err(e) => {
            let (at, input) = choose|at: int, input: Option<Seq<u8>>|
                0 <= at < stages.len() && may_pass(registry, env, stages, at, input)
                    && #[trigger] may_run_stage(
                    registry,
                    env,
                    stages[at],
                    input,
                    Err::<(ExitCode, Seq<u8>), ExecErrorView>(e),
                );
            if at < k {
                assert(never_fails(registry, env, stages[at]));
            } else if at == k {
                lemma_declined_stage_is_unknown(
                    registry,
                    env,
                    stages[k],
                    input,
                    Err::<(ExitCode, Seq<u8>), ExecErrorView>(e),
                );
            } else {
                lemma_passed_stages_are_known(registry, env, stages, at, input);
                assert(stage_is_known(registry, env, stages[k]));
            }
        },
    }
}

/// Whether a stage, reading `input`, can only end with `code`, having
/// written `output`.
pub open spec fn stage_yields(
    registry: Registry,
    env: EnvironmentView,
    node: AstView,
    input: Option<Seq<u8>>,
    code: ExitCode,
    output: Seq<u8>,
) -> bool {
    forall|ending: StageEnding| #[trigger]
        may_run_stage(registry, env, node, input, ending) ==> ending == Ok::<
            (ExitCode, Seq<u8>),
            ExecErrorView,
        >((code, output))
}

/// A pipeline whose last stage has no words, after stages that cannot
/// fail, ends with 0 and writes nothing: the stage only assigns, for
/// itself, and no factory is asked for it.
pub proof fn lemma_assigning_stage_ends_with_zero(
    registry: Registry,
    env: EnvironmentView,
    stages: Seq<AstView>,
    ending: StageEnding,
)
    requires
        may_run_pipeline(registry, env, stages, ending),
        stages.len() > 0,
        plan_stage(stages.last(), env.vars) == Ok::<Option<Invocation>, ExecErrorView>(None),
        forall|j: int| 0 <= j < stages.len() - 1 ==> never_fails(registry, env, #[trigger] stages[j]),
    ensures
        ending == Ok::<(ExitCode, Seq<u8>), ExecErrorView>((0, Seq::empty())),
{
    let n = stages.len() as int;
    match ending {
        Ok((code, written)) => {
            let input = choose|input: Option<Seq<u8>>|
                may_pass(registry, env, stages, n - 1, input) && #[trigger] may_run_stage(
                    registry,
                    env,
                    stages[n - 1],
                    input,
                    Ok::<(ExitCode, Seq<u8>), ExecErrorView>((code, Some(written)->Some_0)),
                );
        },
        Err(e) => {
            let (at, input) = choose|at: int, input: Option<Seq<u8>>|
                0 <= at < stages.len() && may_pass(registry, env, stages, at, input)
                    && #[trigger] may_run_stage(
                    registry,
                    env,
                    stages[at],
                    input,
                    Err::<(ExitCode, Seq<u8>), ExecErrorView>(e),
                );
            if at < n - 1 {
                assert(never_fails(registry, env, stages[at]));
            }
        },
    }
}

/// A stage without words, whose assigned values all have texts, can only
/// end with 0, having written nothing, whatever it reads and whatever the
/// registry holds.
pub proof fn lemma_stage_without_words(
    registry: Registry,
    env: EnvironmentView,
    node: AstView,
    input: Option<Seq<u8>>,
)
    requires
        node matches AstView::Command { argv, assignments, .. } && argv.len() == 0
            && assign_for_stage(assignments, env.vars, env.vars) is Some,
    ensures
        plan_stage(node, env.vars) == Ok::<Option<Invocation>, ExecErrorView>(None),
        stage_yields(registry, env, node, input, 0, Seq::empty()),
        stage_is_known(registry, env, node),
        never_fails(registry, env, node),
{
}

/// What the stage at `i` reads, where the stages before it have written
/// `outputs`: the input of the shell for the first, the output of the stage
/// before for the others.
pub open spec fn input_of(outputs: Seq<Seq<u8>>, i: int) -> Option<Seq<u8>> {
    if i <= 0 {
        None
    } else {
        Some(outputs[i - 1])
    }
}

/// Whether every stage, reading what the stage before it wrote, can only
/// end with its code in `codes`, having written its output in `outputs`.
pub open spec fn stages_yield(
    registry: Registry,
    env: EnvironmentView,
    stages: Seq<AstView>,
    codes: Seq<ExitCode>,
    outputs: Seq<Seq<u8>>,
) -> bool {
    &&& codes.len() == stages.len()
    &&& outputs.len() == stages.len()
    &&& forall|i: int|
        0 <= i < stages.len() ==> stage_yields(
            registry,
            env,
            #[trigger] stages[i],
            input_of(outputs, i),
            codes[i],
            outputs[i],
        )
}

/// Stages that can each end in one way only leave, after `n` of them, what
/// the last of these wrote.
proof fn lemma_passed_output(
    registry: Registry,
    env: EnvironmentView,
    stages: Seq<AstView>,
    codes: Seq<ExitCode>,
    outputs: Seq<Seq<u8>>,
    n: int,
    output: Option<Seq<u8>>,
)
    requires
        stages_yield(registry, env, stages, codes, outputs),
        0 <= n <= stages.len(),
        may_pass(registry, env, stages, n, output),
    ensures
        output == input_of(outputs, n),
    decreases n,
{
    if n > 0 {
        let (input, code) = choose|input: Option<Seq<u8>>, code: ExitCode|
            may_pass(registry, env, stages, n - 1, input) && #[trigger] may_run_stage(
                registry,
                env,
                stages[n - 1],
                input,
                Ok::<(ExitCode, Seq<u8>), ExecErrorView>((code, output->Some_0)),
            );
        lemma_passed_output(registry, env, stages, codes, outputs, n - 1, input);
        assert(stage_yields(
            registry,
            env,
            stages[n - 1],
            input_of(outputs, n - 1),
            codes[n - 1],
            outputs[n - 1],
        ));
    }
}

/// A pipeline is a composition: where every stage, reading what the stage
/// before it wrote, can only end with one code and one output, the
/// pipeline can only end with the code and the output of its last stage.
/// The output of no other stage is part of it.
pub proof fn lemma_pipeline_composes(
    registry: Registry,
    env: EnvironmentView,
    stages: Seq<AstView>,
    codes: Seq<ExitCode>,
    outputs: Seq<Seq<u8>>,
    ending: StageEnding,
)
    requires
        stages.len() > 0,
        stages_yield(registry, env, stages, codes, outputs),
        may_run_pipeline(registry, env, stages, ending),
    ensures
        ending == Ok::<(ExitCode, Seq<u8>), ExecErrorView>((codes.last(), outputs.last())),
{
    let n = stages.len() as int;
    match ending {
        Ok((code, written)) => {
            let input = choose|input: Option<Seq<u8>>|
                may_pass(registry, env, stages, n - 1, input) && #[trigger] may_run_stage(
                    registry,
                    env,
                    stages[n - 1],
                    input,
                    Ok::<(ExitCode, Seq<u8>), ExecErrorView>((code, Some(written)->Some_0)),
                );
            lemma_passed_output(registry, env, stages, codes, outputs, n - 1, input);
            assert(stage_yields(
                registry,
                env,
                stages[n - 1],
                input_of(outputs, n - 1),
                codes[n - 1],
                outputs[n - 1],
            ));
        },
        Err(e) => {
            let (at, input) = choose|at: int, input: Option<Seq<u8>>|
                0 <= at < stages.len() && may_pass(registry, env, stages, at, input)
                    && #[trigger] may_run_stage(
                    registry,
                    env,
                    stages[at],
                    input,
                    Err::<(ExitCode, Seq<u8>), ExecErrorView>(e),
                );
            lemma_passed_output(registry, env, stages, codes, outputs, at, input);
            assert(stage_yields(
                registry,
                env,
                stages[at],
                input_of(outputs, at),
                codes[at],
                outputs[at],
            ));
        },
    }
}

/// What follows for a pipeline that was run: see
/// [`lemma_pipeline_endings`].
pub proof fn lemma_pipeline_comes_to(
    registry: Registry,
    env: EnvironmentView,
    stages: Seq<AstView>,
    ending: Ending,
    stdout: Seq<u8>,
    stdout_after: Seq<u8>,
)
    requires
        pipeline_comes_to(registry, env, stages, ending, stdout, stdout_after),
    ensures
        stages.len() == 0 ==> ending == Err::<ExitCode, ExecErrorView>(
            ExecErrorView::EmptyPipeline,
        ),
        ending is Ok ==> forall|i: int|
            0 <= i < stages.len() ==> stage_is_known(registry, env, #[trigger] stages[i]),
        stages.len() > 0 ==> match plan_stage(stages[0], env.vars) {
            Err(defect) => ending == Err::<ExitCode, ExecErrorView>(defect),
            Ok(None) => true,
            Ok(Some(planned)) => all_decline(registry, env, planned.name, planned.args) ==> ending
                == Err::<ExitCode, ExecErrorView>(ExecErrorView::CommandNotFound(planned.name)),
        },
{
    match ending {
        Ok(code) => {
            let written = choose|written: Seq<u8>| #[trigger]
                may_run_pipeline(
                    registry,
                    env,
                    stages,
                    Ok::<(ExitCode, Seq<u8>), ExecErrorView>((code, written)),
                ) && stdout_after == stdout + written;
            lemma_pipeline_endings(
                registry,
                env,
                stages,
                Ok::<(ExitCode, Seq<u8>), ExecErrorView>((code, written)),
            );
        },
        Err(e) => {
            lemma_pipeline_endings(
                registry,
                env,
                stages,
                Err::<(ExitCode, Seq<u8>), ExecErrorView>(e),
            );
        },
    }
}

/// What follows for a command that was run and whose name every factory
/// declines: the ending is `CommandNotFound` with that name, the output
/// stays, and the environment is as the assignments left it.
pub proof fn lemma_command_comes_to(
    registry: Registry,
    env: EnvironmentView,
    argv: Seq<WordView>,
    assignments: Seq<AstView>,
    ending: Ending,
    stdout: Seq<u8>,
    stdout_after: Seq<u8>,
    env_after: EnvironmentView,
)
    requires
        command_comes_to(
            registry,
            env,
            argv,
            assignments,
            ending,
            stdout,
            stdout_after,
            env_after,
        ),
    ensures
        plan_command(argv, assignments, env.vars).1 matches Ok(Some(planned)) ==> all_decline(
            registry,
            EnvironmentView { vars: plan_command(argv, assignments, env.vars).0, ..env },
            planned.name,
            planned.args,
        ) ==> {
            &&& ending == Err::<ExitCode, ExecErrorView>(
                ExecErrorView::CommandNotFound(planned.name),
            )
            &&& stdout_after == stdout
            &&& env_after == EnvironmentView {
                vars: plan_command(argv, assignments, env.vars).0,
                ..env
            }
        },
{
    let (vars, plan) = plan_command(argv, assignments, env.vars);
    let assigned = EnvironmentView { vars, ..env };
    if let Ok(Some(planned)) = plan {
        if all_decline(registry, assigned, planned.name, planned.args) {
            let written = choose|written: Seq<u8>| #[trigger]
                may_run_command(
                    registry,
                    assigned,
                    planned.name,
                    planned.args,
                    None,
                    Seq::<u8>::empty(),
                    ending,
                    written,
                    env_after,
                ) && stdout_after == if ending is Ok {
                    stdout + written
                } else {
                    stdout
                };
            lemma_declined_is_unknown(
                registry,
                assigned,
                planned.name,
                planned.args,
                None,
                Seq::<u8>::empty(),
                ending,
                written,
                env_after,
            );
        }
    }
}

/// What a lookup comes to: the command that the registry made, or, where
/// it made none, the error `CommandNotFound` with the name.
pub fn command_or_unknown(made: Option<Box<dyn ExecutableCommand>>, name: &str) -> (r: Result<
    Box<dyn ExecutableCommand>,
    ExecError,
>)
    ensures
        made is Some <==> r is Ok,
        r is Ok ==> forall|
            stdin: Option<Seq<u8>>,
            stdout: Seq<u8>,
            env: EnvironmentView,
            ending: Ending,
            stdout_after: Seq<u8>,
            env_after: EnvironmentView,
        |
            (#[trigger] r->Ok_0.may_run(stdin, stdout, env, ending, stdout_after, env_after))
                == made->Some_0.may_run(stdin, stdout, env, ending, stdout_after, env_after),
        r matches Err(e) ==> e.deep_view() == ExecErrorView::CommandNotFound(name@),
{
    match made {
        Some(command) => Ok(command),
        None => Err(ExecError::CommandNotFound(name.to_owned())),
    }
}

// ---------------------------------------------------------------------------
// The interpreter
// ---------------------------------------------------------------------------

/// A shell session: an environment and the registry of command factories
/// that its lines are run against.
pub struct Interpreter {
    env: Environment,
    commands: Vec<Box<dyn CommandFactory>>,
}

impl Interpreter {
    /// The environment of the session, as mathematics.
    pub closed spec fn env_view(&self) -> EnvironmentView {
        self.env@
    }

    /// The registry: the factories, in the order in which they are asked.
    pub closed spec fn registry(&self) -> Registry {
        self.commands@
    }

    /// The number of factories in the registry.
    pub open spec fn factories(&self) -> nat {
        self.registry().len()
    }

    /// An interpreter with the given environment and registry. The
    /// factories are asked in the order of `commands`.
    pub fn new(env: Environment, commands: Vec<Box<dyn CommandFactory>>) -> (sh: Interpreter)
        ensures
            sh.env_view() == env@,
            sh.registry() == commands@,
    {
        Interpreter { env, commands }
    }

    /// The environment of the session.
    pub fn env(&self) -> (env: &Environment)
        ensures
            env@ == self.env_view(),
    {
        &self.env
    }

    /// Asks the factories in order for the command of this name, and
    /// returns what the first of them that knows it has made. Which factory
    /// is asked next, and when the search ends, is decided by
    /// [`search_step`] on the answers so far: no factory is asked after one
    /// has made a command.
    ///
    /// So a command that is returned is one that some factory may make,
    /// where every factory before that one may decline; and nothing is
    /// returned only where every factory may decline.
    pub fn create(&self, name: &str, args: &Vec<String>) -> (r: Option<Box<dyn ExecutableCommand>>)
        ensures
            may_create(self.registry(), self.env_view(), name@, texts(args@), r),
            all_decline(self.registry(), self.env_view(), name@, texts(args@)) ==> r is None,
            self.factories() == 0 ==> r is None,
    {
        // For each factory that was asked, whether it made a command.
        let mut answers: Vec<bool> = Vec::new();
        let mut made: Option<Box<dyn ExecutableCommand>> = None;
        loop
            invariant
                answers@.len() <= self.commands@.len(),
                answers@.len() == 0 ==> made is None,
                answers@.len() > 0 ==> answers@.last() == (made is Some) && (
                #[trigger] self.commands@[answers@.len() - 1]).may_make(
                    self.env@,
                    name@,
                    texts(args@),
                    made,
                ),
                forall|j: int| 0 <= j < answers@.len() - 1 ==> !answers@[j],
                forall|j: int|
                    0 <= j < answers@.len() && !answers@[j] ==> (#[trigger] self.commands@[j]).may_make(
                        self.env@,
                        name@,
                        texts(args@),
                        None,
                    ),
            decreases self.commands@.len() - answers@.len(),
        {
            proof {
                lemma_first_true_is_least(answers@);
            }
            match search_step(self.commands.len(), &answers) {
                SearchStep::Probe(i) => {
                    made = self.commands[i].try_create(&self.env, name, args);
                    answers.push(made.is_some());
                },
                SearchStep::Found(k) => {
                    assert(k == answers@.len() - 1);
                    assert(self.commands@[k as int].may_make(
                        self.env@,
                        name@,
                        texts(args@),
                        made,
                    ));
                    return made;
                },
                SearchStep::NotFound => {
                    return None;
                },
            }
        }
    }

    /// Runs one command by name, on the input of the shell and in the
    /// environment of the session, which the command may change.
    ///
    /// The command that runs is the one that the registry makes for the
    /// name, see [`Interpreter::create`], and the result, the output and
    /// the environment are what a run of that command may come to. Where
    /// the registry makes none, the error is `CommandNotFound` with the
    /// name, and nothing changes.
    pub fn run(&mut self, name: &str, args: &Vec<String>, stdout: &mut MemWriter) -> (r: Result<
        ExitCode,
        ExecError,
    >)
        ensures
            final(self).registry() == old(self).registry(),
            may_run_command(
                old(self).registry(),
                old(self).env_view(),
                name@,
                texts(args@),
                None,
                old(stdout)@,
                ending_of(r),
                final(stdout)@,
                final(self).env_view(),
            ),
            all_decline(old(self).registry(), old(self).env_view(), name@, texts(args@)) ==> {
                &&& r matches Err(e)
                &&& e.deep_view() == ExecErrorView::CommandNotFound(name@)
                &&& final(self).env_view() == old(self).env_view()
                &&& final(stdout)@ == old(stdout)@
            },
    {
        let made = self.create(name, args);
        let ghost witness = made;
        match command_or_unknown(made, name) {
            Ok(command) => {
                let r = command.execute(Stdin::Inherited, stdout, &mut self.env);
                assert(may_create(
                    old(self).registry(),
                    old(self).env_view(),
                    name@,
                    texts(args@),
                    witness,
                ));
                r
            },
            Err(e) => {
                assert(may_create(
                    old(self).registry(),
                    old(self).env_view(),
                    name@,
                    texts(args@),
                    witness,
                ));
                Err(e)
            },
        }
    }

    /// Runs a stage of a pipeline: the command is made against the
    /// environment of the session and runs on a copy of it, with an output
    /// of its own, which is returned with the exit code.
    ///
    /// So the result is what a run of the command that the registry makes
    /// may come to on an empty output, and `CommandNotFound` with the name
    /// where the registry makes none.
    fn run_stage(&self, name: &str, args: &Vec<String>, stdin: Stdin) -> (r: Result<
        (ExitCode, Vec<u8>),
        ExecError,
    >)
        ensures
            may_end_stage(
                self.registry(),
                self.env_view(),
                name@,
                texts(args@),
                stdin@,
                stage_ending_of(r),
            ),
            all_decline(self.registry(), self.env_view(), name@, texts(args@)) ==> (r matches Err(
                e,
            ) && e.deep_view() == ExecErrorView::CommandNotFound(name@)),
    {
        let made = self.create(name, args);
        let ghost witness = made;
        match command_or_unknown(made, name) {
            Ok(command) => {
                let mut stage_out = MemWriter::new();
                let mut stage_env = self.env.clone();
                let ran = command.execute(stdin, &mut stage_out, &mut stage_env);
                proof {
                    assert(may_create(
                        self.registry(),
                        self.env_view(),
                        name@,
                        texts(args@),
                        witness,
                    ));
                    assert(may_run_command(
                        self.registry(),
                        self.env_view(),
                        name@,
                        texts(args@),
                        stdin@,
                        Seq::<u8>::empty(),
                        ending_of(ran),
                        stage_out@,
                        stage_env@,
                    ));
                }
                match ran {
                    Ok(code) => Ok((code, stage_out.into_inner())),
                    Err(e) => Err(e),
                }
            },
            Err(e) => {
                proof {
                    assert(witness is None);
                    assert(may_run_command(
                        self.registry(),
                        self.env_view(),
                        name@,
                        texts(args@),
                        stdin@,
                        Seq::<u8>::empty(),
                        Err::<ExitCode, ExecErrorView>(e.deep_view()),
                        Seq::<u8>::empty(),
                        self.env_view(),
                    ));
                }
                Err(e)
            },
        }
    }

    /// Runs the stages of a pipeline from left to right. Each stage reads
    /// what the stage before it wrote, the first reads the input of the
    /// shell. A stage without words only assigns, for itself: it ends with 0
    /// and has written nothing, and no command is looked for. What the last
    /// stage wrote is appended to `final_stdout` when
    /// all have run, and its exit code is returned. The first stage that
    /// cannot run ends the pipeline with its error, and nothing is appended.
    ///
    /// So the exit code and the bytes that are appended are what the
    /// command of the last stage may come to on what the stage before it
    /// wrote, and so on back to the first stage; an error is what some stage
    /// may fail with after the stages before it have run.
    fn run_pipeline(&self, stages: &Vec<AstNode>, final_stdout: &mut MemWriter) -> (r: Result<
        ExitCode,
        ExecError,
    >)
        ensures
            pipeline_comes_to(
                self.registry(),
                self.env_view(),
                ast_views(stages@),
                ending_of(r),
                old(final_stdout)@,
                final(final_stdout)@,
            ),
    {
        if stages.len() == 0 {
            return Err(ExecError::EmptyPipeline);
        }
        let ghost views = ast_views(stages@);
        let mut relay = Relay::new();
        let mut i: usize = 0;
        while i < stages.len()
            invariant
                i <= stages@.len(),
                stages@.len() > 0,
                views == ast_views(stages@),
                final_stdout@ == old(final_stdout)@,
                may_pass(
                    self.registry(),
                    self.env_view(),
                    views,
                    i as int,
                    relay@.previous_output,
                ),
                may_reach(
                    self.registry(),
                    self.env_view(),
                    views,
                    i as int,
                    relay@.last_exit,
                    relay@.previous_output,
                ),
            decreases stages@.len() - i,
        {
            let ghost before = relay@.last_exit;
            let ghost input = relay@.previous_output;
            assert(views[i as int] == ast_view(stages@[i as int]));
            assert(may_pass(self.registry(), self.env_view(), views, i as int, input));
            let planned = match plan_pipeline_stage(&self.env, &stages[i]) {
                Ok(planned) => planned,
                Err(e) => {
                    proof {
                        assert(may_run_stage(
                            self.registry(),
                            self.env_view(),
                            views[i as int],
                            input,
                            Err::<(ExitCode, Seq<u8>), ExecErrorView>(e.deep_view()),
                        ));
                        assert(may_fail(self.registry(), self.env_view(), views, e.deep_view()));
                    }
                    return Err(e);
                },
            };
            let (code, output) = match planned {
                None => {
                    let code: ExitCode = 0;
                    (code, Vec::new())
                },
                Some((name, args)) => {
                    let stdin = relay.take_input();
                    match self.run_stage(name.as_str(), &args, stdin) {
                        Ok(ran) => ran,
                        Err(e) => {
                            proof {
                                assert(may_run_stage(
                                    self.registry(),
                                    self.env_view(),
                                    views[i as int],
                                    input,
                                    Err::<(ExitCode, Seq<u8>), ExecErrorView>(e.deep_view()),
                                ));
                                assert(may_fail(
                                    self.registry(),
                                    self.env_view(),
                                    views,
                                    e.deep_view(),
                                ));
                            }
                            return Err(e);
                        },
                    }
                },
            };
            proof {
                assert(may_run_stage(
                    self.registry(),
                    self.env_view(),
                    views[i as int],
                    input,
                    Ok::<(ExitCode, Seq<u8>), ExecErrorView>((code, output@)),
                ));
                let n = i + 1;
                assert(may_pass(self.registry(), self.env_view(), views, n - 1, input));
                assert(views[n - 1] == views[i as int]);
                let out = Some(output@);
                assert(may_run_stage(
                    self.registry(),
                    self.env_view(),
                    views[n - 1],
                    input,
                    Ok::<(ExitCode, Seq<u8>), ExecErrorView>((code, out->Some_0)),
                ));
                assert(may_pass(self.registry(), self.env_view(), views, n, out));
                assert(may_reach(self.registry(), self.env_view(), views, n, code, Some(output@)));
            }
            relay.record(code, output);
            i += 1;
        }
        let ghost written = relay@.previous_output->Some_0;
        assert(relay@.previous_output == Some(written));
        let code = relay.finish(final_stdout);
        proof {
            assert(final_stdout@ == old(final_stdout)@ + written);
            assert(may_run_pipeline(
                self.registry(),
                self.env_view(),
                ast_views(stages@),
                Ok::<(ExitCode, Seq<u8>), ExecErrorView>((code, written)),
            ));
            lemma_pipeline_ended(
                self.registry(),
                self.env_view(),
                ast_views(stages@),
                code,
                written,
                old(final_stdout)@,
                final_stdout@,
            );
        }
        Ok(code)
    }

    /// Runs a syntax tree: a command that stands alone, or a pipeline.
    ///
    /// A command that stands alone carries out its assignments on the
    /// environment of the session, where they stay, and then runs in it; with
    /// no word it only assigns, and no command is looked for. The stages of a
    /// pipeline leave the environment of the session as it was; a stage with
    /// no word assigns for itself alone, ends with 0 and writes nothing.
    ///
    /// What the command or the last stage wrote is appended to
    /// `final_stdout` once, when everything has run; on an error nothing is
    /// appended. The registry stays as it is.
    ///
    /// Which command runs, and what its run may come to, is what the
    /// registry and the commands say of themselves: see
    /// [`may_run_command`] for a command and [`may_run_pipeline`] for a
    /// pipeline. A name of which every factory declines gives
    /// `CommandNotFound` with that name.
    pub fn execute_ast(&mut self, root: &AstNode, final_stdout: &mut MemWriter) -> (r: Result<
        ExitCode,
        ExecError,
    >)
        requires
            root is Command || root is Pipeline,
        ensures
            final(self).registry() == old(self).registry(),
            r is Err ==> final(final_stdout)@ == old(final_stdout)@,
            r is Ok ==> old(final_stdout)@.is_prefix_of(final(final_stdout)@),
            root matches AstNode::Pipeline(stages) ==> {
                &&& final(self).env_view() == old(self).env_view()
                &&& pipeline_comes_to(
                    old(self).registry(),
                    old(self).env_view(),
                    ast_views(stages@),
                    ending_of(r),
                    old(final_stdout)@,
                    final(final_stdout)@,
                )
                &&& stages@.len() == 0 ==> (r matches Err(e) && e is EmptyPipeline)
                &&& r is Ok ==> forall|i: int|
                    0 <= i < stages@.len() ==> stage_is_known(
                        old(self).registry(),
                        old(self).env_view(),
                        #[trigger] ast_views(stages@)[i],
                    )
                &&& stages@.len() > 0 ==> match plan_stage(
                    ast_views(stages@)[0],
                    old(self).env_view().vars,
                ) {
                    Err(defect) => r matches Err(e) && e.deep_view() == defect,
                    Ok(None) => true,
                    Ok(Some(first)) => all_decline(
                        old(self).registry(),
                        old(self).env_view(),
                        first.name,
                        first.args,
                    ) ==> (r matches Err(e) && e.deep_view() == ExecErrorView::CommandNotFound(
                        first.name,
                    )),
                }
            },
            root matches AstNode::Command { argv, assignments, .. } ==> {
                let (vars, plan) = plan_command(
                    argv.deep_view(),
                    ast_views(assignments@),
                    old(self).env_view().vars,
                );
                let assigned = EnvironmentView { vars, ..old(self).env_view() };
                &&& command_comes_to(
                    old(self).registry(),
                    old(self).env_view(),
                    argv.deep_view(),
                    ast_views(assignments@),
                    ending_of(r),
                    old(final_stdout)@,
                    final(final_stdout)@,
                    final(self).env_view(),
                )
                &&& plan matches Ok(Some(planned)) ==> all_decline(
                    old(self).registry(),
                    assigned,
                    planned.name,
                    planned.args,
                ) ==> {
                    &&& r matches Err(e)
                    &&& e.deep_view() == ExecErrorView::CommandNotFound(planned.name)
                    &&& final(self).env_view() == assigned
                    &&& final(final_stdout)@ == old(final_stdout)@
                }
            },
    {
        match root {
            AstNode::Command { argv, assignments, redirects: _ } => {
                let ghost planned = plan_command(
                    argv.deep_view(),
                    ast_views(assignments@),
                    old(self).env_view().vars,
                );
                let ghost assigned = EnvironmentView { vars: planned.0, ..old(self).env_view() };
                apply_assignments(&mut self.env, assignments)?;
                assert(self.env@ == assigned);
                if argv.len() == 0 {
                    return Ok(0);
                }
                let (name, args) = invocation(&self.env, argv)?;
                let mut output = MemWriter::new();
                let ran = self.run(name.as_str(), &args, &mut output);
                let ghost written = output@;
                assert(planned.1 == Ok::<Option<Invocation>, ExecErrorView>(
                    Some(Invocation { name: name@, args: texts(args@) }),
                ));
                assert(may_run_command(
                    old(self).registry(),
                    assigned,
                    name@,
                    texts(args@),
                    None,
                    Seq::<u8>::empty(),
                    ending_of(ran),
                    written,
                    self.env_view(),
                ));
                proof {
                    if all_decline(old(self).registry(), assigned, name@, texts(args@)) {
                        lemma_declined_is_unknown(
                            old(self).registry(),
                            assigned,
                            name@,
                            texts(args@),
                            None,
                            Seq::<u8>::empty(),
                            ending_of(ran),
                            written,
                            self.env_view(),
                        );
                    }
                }
                match ran {
                    Ok(code) => {
                        let mut relay = Relay::new();
                        relay.record(code, output.into_inner());
                        let code = relay.finish(final_stdout);
                        assert(old(final_stdout)@.is_prefix_of(final_stdout@));
                        assert(may_run_command(
                            old(self).registry(),
                            assigned,
                            planned.1->Ok_0->Some_0.name,
                            planned.1->Ok_0->Some_0.args,
                            None,
                            Seq::<u8>::empty(),
                            Ok::<ExitCode, ExecErrorView>(code),
                            written,
                            self.env_view(),
                        ));
                        assert(command_comes_to(
                            old(self).registry(),
                            old(self).env_view(),
                            argv.deep_view(),
                            ast_views(assignments@),
                            Ok::<ExitCode, ExecErrorView>(code),
                            old(final_stdout)@,
                            final_stdout@,
                            self.env_view(),
                        ));
                        Ok(code)
                    },
                    Err(e) => {
                        assert(may_run_command(
                            old(self).registry(),
                            assigned,
                            planned.1->Ok_0->Some_0.name,
                            planned.1->Ok_0->Some_0.args,
                            None,
                            Seq::<u8>::empty(),
                            Err::<ExitCode, ExecErrorView>(e.deep_view()),
                            written,
                            self.env_view(),
                        ));
                        assert(command_comes_to(
                            old(self).registry(),
                            old(self).env_view(),
                            argv.deep_view(),
                            ast_views(assignments@),
                            Err::<ExitCode, ExecErrorView>(e.deep_view()),
                            old(final_stdout)@,
                            final_stdout@,
                            self.env_view(),
                        ));
                        Err(e)
                    },
                }
            },
            AstNode::Pipeline(stages) => {
                let r = self.run_pipeline(stages, final_stdout);
                proof {
                    lemma_pipeline_comes_to(
                        self.registry(),
                        self.env_view(),
                        ast_views(stages@),
                        ending_of(r),
                        old(final_stdout)@,
                        final_stdout@,
                    );
                }
                assert(r is Ok ==> old(final_stdout)@.is_prefix_of(final_stdout@));
                r
            },
            _ => vstd::pervasive::unreached(),
        }
    }
}

} // verus!
