use shell_commands::builtin::{Echo, FileInput, WC};
use shell_commands::command::{CommandFactory, ExecError, ExecutableCommand, ExitCode, Stdin};
use shell_commands::env::Environment;
use shell_commands::interpreter::{
    command_or_unknown, plan_pipeline_stage, word_to_string, Interpreter, Relay,
};
use shell_commands::lexer::{split_into_tokens, WordPart};
use shell_commands::parser::{construct_ast, AstNode, Word};
use shell_commands::{MemReader, MemWriter};

struct EchoFactory;

impl CommandFactory for EchoFactory {
    fn try_create(
        &self,
        _env: &Environment,
        name: &str,
        args: &Vec<String>,
    ) -> Option<Box<dyn ExecutableCommand>> {
        if name == "echo" {
            Some(Box::new(Echo { no_newline: false, args: args.clone() }))
        } else {
            None
        }
    }
}

struct WcFactory;

impl CommandFactory for WcFactory {
    fn try_create(
        &self,
        _env: &Environment,
        name: &str,
        args: &Vec<String>,
    ) -> Option<Box<dyn ExecutableCommand>> {
        if name == "wc" && args.is_empty() {
            Some(Box::new(WC { files: Vec::<FileInput>::new() }))
        } else {
            None
        }
    }
}

// A command that writes the value of a variable, or "unset".
struct ShowVar {
    name: String,
}

impl ExecutableCommand for ShowVar {
    fn execute(
        self: Box<Self>,
        _stdin: Stdin,
        stdout: &mut MemWriter,
        env: &mut Environment,
    ) -> Result<ExitCode, ExecError> {
        let text = env.get_var(&self.name).unwrap_or("unset".to_string());
        stdout.write(text.as_bytes());
        Ok(0)
    }
}

struct ShowFactory;

impl CommandFactory for ShowFactory {
    fn try_create(
        &self,
        _env: &Environment,
        name: &str,
        args: &Vec<String>,
    ) -> Option<Box<dyn ExecutableCommand>> {
        if name == "show" && args.len() == 1 {
            Some(Box::new(ShowVar { name: args[0].clone() }))
        } else {
            None
        }
    }
}

// A command that fails to start.
struct Broken;

impl ExecutableCommand for Broken {
    fn execute(
        self: Box<Self>,
        _stdin: Stdin,
        stdout: &mut MemWriter,
        _env: &mut Environment,
    ) -> Result<ExitCode, ExecError> {
        stdout.write(b"partial");
        Err(ExecError::Spawn("no such program".to_string()))
    }
}

struct BrokenFactory;

impl CommandFactory for BrokenFactory {
    fn try_create(
        &self,
        _env: &Environment,
        name: &str,
        _args: &Vec<String>,
    ) -> Option<Box<dyn ExecutableCommand>> {
        if name == "broken" {
            Some(Box::new(Broken))
        } else {
            None
        }
    }
}

// A command that copies its input and changes the environment it was given.
struct Upper;

impl ExecutableCommand for Upper {
    fn execute(
        self: Box<Self>,
        stdin: Stdin,
        stdout: &mut MemWriter,
        env: &mut Environment,
    ) -> Result<ExitCode, ExecError> {
        let data = match stdin {
            Stdin::Piped(mut reader) => reader.read_to_end(),
            Stdin::Inherited => b"inherited".to_vec(),
        };
        stdout.write(&data.to_ascii_uppercase());
        env.set_var("TOUCHED", "yes");
        Ok(7)
    }
}

struct UpperFactory;

impl CommandFactory for UpperFactory {
    fn try_create(
        &self,
        _env: &Environment,
        name: &str,
        _args: &Vec<String>,
    ) -> Option<Box<dyn ExecutableCommand>> {
        if name == "upper" {
            Some(Box::new(Upper))
        } else {
            None
        }
    }
}

// A factory that takes every name: registered last, it must lose to the others.
struct CatchAll;

impl CommandFactory for CatchAll {
    fn try_create(
        &self,
        _env: &Environment,
        name: &str,
        _args: &Vec<String>,
    ) -> Option<Box<dyn ExecutableCommand>> {
        Some(Box::new(Echo { no_newline: true, args: vec![format!("caught {}", name)] }))
    }
}

fn empty_env() -> Environment {
    Environment::new(Vec::new(), "/".to_string())
}

fn shell() -> Interpreter {
    Interpreter::new(
        empty_env(),
        vec![
            Box::new(EchoFactory),
            Box::new(WcFactory),
            Box::new(ShowFactory),
            Box::new(BrokenFactory),
            Box::new(UpperFactory),
        ],
    )
}

fn tree(line: &str) -> AstNode {
    construct_ast(split_into_tokens(line.to_string()).unwrap()).unwrap()
}

fn run(sh: &mut Interpreter, line: &str) -> (Result<ExitCode, ExecError>, String) {
    let mut out = MemWriter::new();
    let result = sh.execute_ast(&tree(line), &mut out);
    (result, String::from_utf8(out.into_inner()).expect("utf8"))
}

#[test]
fn test_echo_pipe_wc_output() {
    let factories: Vec<Box<dyn CommandFactory>> = vec![Box::new(EchoFactory), Box::new(WcFactory)];
    let mut interp = Interpreter::new(empty_env(), factories);

    let line = "echo \"22\" | wc".to_string();
    let tokens = split_into_tokens(line).unwrap();
    let ast = construct_ast(tokens).unwrap();

    let mut out = MemWriter::new();
    let code = interp.execute_ast(&ast, &mut out).unwrap();
    assert_eq!(code, 0);

    let s = String::from_utf8(out.into_inner()).expect("utf8");

    assert_eq!(s, "1 1 3\n");
}

#[test]
fn single_command_writes_to_the_sink() {
    let mut sh = shell();
    let (result, out) = run(&mut sh, "echo hello world");
    assert!(matches!(result, Ok(0)));
    assert_eq!(out, "hello world\n");
}

#[test]
fn output_is_appended_to_what_the_sink_holds() {
    let mut sh = shell();
    let mut out = MemWriter::new();
    out.write(b"before|");
    let result = sh.execute_ast(&tree("echo x"), &mut out);
    assert!(matches!(result, Ok(0)));
    assert_eq!(out.into_inner(), b"before|x\n".to_vec());
}

#[test]
fn assignment_only_command_returns_zero_without_lookup() {
    // With no factory at all, any lookup would fail.
    let mut sh = Interpreter::new(empty_env(), Vec::new());
    let (result, out) = run(&mut sh, "X=value");
    assert!(matches!(result, Ok(0)));
    assert_eq!(out, "");
    assert_eq!(sh.env().get_var("X"), Some("value".to_string()));
}

#[test]
fn assignment_without_value_sets_the_empty_string() {
    let mut sh = shell();
    let (result, _) = run(&mut sh, "X=");
    assert!(matches!(result, Ok(0)));
    assert_eq!(sh.env().get_var("X"), Some(String::new()));
}

#[test]
fn assignments_of_a_single_command_persist_and_take_effect_in_turn() {
    let mut sh = shell();
    let (result, out) = run(&mut sh, "A=1 B=$A show B");
    assert!(matches!(result, Ok(0)));
    assert_eq!(out, "1");
    assert_eq!(sh.env().get_var("A"), Some("1".to_string()));
    assert_eq!(sh.env().get_var("B"), Some("1".to_string()));
}

#[test]
fn pipeline_stage_assignments_do_not_leak() {
    let mut sh = shell();
    let (result, out) = run(&mut sh, "X=1 echo $X | upper");
    assert!(matches!(result, Ok(7)));
    assert_eq!(out, "1\n");
    assert_eq!(sh.env().get_var("X"), None);
    // What a stage does to its environment stays with the stage.
    assert_eq!(sh.env().get_var("TOUCHED"), None);
}

#[test]
fn single_command_may_change_the_environment() {
    let mut sh = shell();
    let (result, out) = run(&mut sh, "upper");
    assert!(matches!(result, Ok(7)));
    assert_eq!(out, "INHERITED");
    assert_eq!(sh.env().get_var("TOUCHED"), Some("yes".to_string()));
}

#[test]
fn pipeline_passes_output_to_the_next_stage() {
    let mut sh = shell();
    let (result, out) = run(&mut sh, "echo abc | upper | wc");
    assert!(matches!(result, Ok(0)));
    assert_eq!(out, "1 1 4\n");
}

#[test]
fn exit_code_is_that_of_the_last_stage() {
    let mut sh = shell();
    let (result, out) = run(&mut sh, "echo abc | upper");
    assert!(matches!(result, Ok(7)));
    assert_eq!(out, "ABC\n");
}

#[test]
fn unknown_second_stage_reports_command_not_found_and_writes_nothing() {
    let mut sh = shell();
    let (result, out) = run(&mut sh, "echo hello | nosuchcommand");
    match result {
        Err(ExecError::CommandNotFound(name)) => assert_eq!(name, "nosuchcommand"),
        other => panic!("expected CommandNotFound, got {:?}", other),
    }
    assert_eq!(out, "");
}

#[test]
fn unknown_single_command_reports_command_not_found() {
    let mut sh = shell();
    let (result, out) = run(&mut sh, "nosuchcommand a b");
    match result {
        Err(ExecError::CommandNotFound(name)) => assert_eq!(name, "nosuchcommand"),
        other => panic!("expected CommandNotFound, got {:?}", other),
    }
    assert_eq!(out, "");
}

#[test]
fn failing_command_stops_the_pipeline_and_writes_nothing() {
    let mut sh = shell();
    let (result, out) = run(&mut sh, "echo a | broken | upper");
    assert!(matches!(result, Err(ExecError::Spawn(_))));
    assert_eq!(out, "");
    let (result, out) = run(&mut sh, "broken");
    assert!(matches!(result, Err(ExecError::Spawn(_))));
    assert_eq!(out, "");
}

#[test]
fn first_factory_that_knows_the_name_wins() {
    let mut sh = Interpreter::new(empty_env(), vec![Box::new(EchoFactory), Box::new(CatchAll)]);
    let (_, out) = run(&mut sh, "echo hi");
    assert_eq!(out, "hi\n");
    let (_, out) = run(&mut sh, "other");
    assert_eq!(out, "caught other");

    let mut sh = Interpreter::new(empty_env(), vec![Box::new(CatchAll), Box::new(EchoFactory)]);
    let (_, out) = run(&mut sh, "echo hi");
    assert_eq!(out, "caught echo");
}

#[test]
fn command_substitution_is_refused() {
    let mut sh = shell();
    let (result, out) = run(&mut sh, "echo $(date)");
    assert!(matches!(result, Err(ExecError::UnsupportedSubstitution)));
    assert_eq!(out, "");
    let (result, _) = run(&mut sh, "X=$(date)");
    assert!(matches!(result, Err(ExecError::UnsupportedSubstitution)));
    let (result, _) = run(&mut sh, "echo a | echo $(date)");
    assert!(matches!(result, Err(ExecError::UnsupportedSubstitution)));
}

#[test]
fn assignment_only_stage_ends_a_pipeline_with_zero() {
    let mut sh = shell();
    let (result, out) = run(&mut sh, "echo hi | X=value");
    assert!(matches!(result, Ok(0)));
    assert_eq!(out, "");
    assert_eq!(sh.env().get_var("X"), None);
}

#[test]
fn assignment_only_stage_hands_on_an_empty_output() {
    let mut sh = shell();
    let (result, out) = run(&mut sh, "X=1 | upper");
    assert!(matches!(result, Ok(7)));
    assert_eq!(out, "");
    let (result, out) = run(&mut sh, "echo a | X=1 | echo b");
    assert!(matches!(result, Ok(0)));
    assert_eq!(out, "b\n");
    assert_eq!(sh.env().get_var("X"), None);
}

#[test]
fn assignment_only_stage_without_a_text_is_refused() {
    let mut sh = shell();
    let (result, out) = run(&mut sh, "echo a | X=$(date)");
    assert!(matches!(result, Err(ExecError::UnsupportedSubstitution)));
    assert_eq!(out, "");
}

#[test]
fn plan_of_a_stage_names_the_command_if_there_is_one() {
    let env = Environment::new(vec![("N".to_string(), "echo".to_string())], "/".to_string());
    let stages = match tree("X=a $N $X b | Y=1") {
        AstNode::Pipeline(stages) => stages,
        _ => panic!("expected a pipeline"),
    };
    match plan_pipeline_stage(&env, &stages[0]) {
        Ok(Some((name, args))) => {
            assert_eq!(name, "echo");
            assert_eq!(args, vec!["a".to_string(), "b".to_string()]);
        },
        _ => panic!("expected a name and its arguments"),
    }
    assert!(matches!(plan_pipeline_stage(&env, &stages[1]), Ok(None)));
    let stray = AstNode::Assignment { name: "X".to_string(), value: None };
    assert!(matches!(plan_pipeline_stage(&env, &stray), Err(ExecError::NotACommand)));
}

#[test]
fn pipeline_without_stages_is_refused() {
    let mut sh = shell();
    let mut out = MemWriter::new();
    let result = sh.execute_ast(&AstNode::Pipeline(Vec::new()), &mut out);
    assert!(matches!(result, Err(ExecError::EmptyPipeline)));
}

#[test]
fn pipeline_stage_that_is_no_command_is_refused() {
    let mut sh = shell();
    let mut out = MemWriter::new();
    let stage = AstNode::Assignment { name: "X".to_string(), value: None };
    let result = sh.execute_ast(&AstNode::Pipeline(vec![stage]), &mut out);
    assert!(matches!(result, Err(ExecError::NotACommand)));
}

#[test]
fn run_executes_a_command_by_name() {
    let mut sh = shell();
    let mut out = MemWriter::new();
    let code = sh.run("echo", &vec!["a".to_string(), "b".to_string()], &mut out).unwrap();
    assert_eq!(code, 0);
    assert_eq!(out.into_inner(), b"a b\n".to_vec());
    let mut out = MemWriter::new();
    assert!(matches!(
        sh.run("nosuch", &Vec::new(), &mut out),
        Err(ExecError::CommandNotFound(_))
    ));
}

#[test]
fn words_resolve_against_the_environment() {
    let env = Environment::new(
        vec![("HOME".to_string(), "/root".to_string())],
        "/".to_string(),
    );
    assert_eq!(word_to_string(&env, &Word::Literal("$HOME".to_string())).unwrap(), "$HOME");
    let word = Word::Compound(vec![
        WordPart::Literal("a".to_string()),
        WordPart::ParamSubst("HOME".to_string()),
        WordPart::Literal("/b".to_string()),
        WordPart::ParamSubst("UNSET".to_string()),
    ]);
    assert_eq!(word_to_string(&env, &word).unwrap(), "a/root/b");
    let word = Word::Compound(vec![
        WordPart::Literal("a".to_string()),
        WordPart::CmdSubst("date".to_string()),
    ]);
    assert!(matches!(word_to_string(&env, &word), Err(ExecError::UnsupportedSubstitution)));
}

#[test]
fn piped_reader_yields_its_bytes_once() {
    let mut reader = MemReader::new(b"abc".to_vec());
    assert_eq!(reader.read_to_end(), b"abc".to_vec());
    assert_eq!(reader.read_to_end(), Vec::<u8>::new());
}

#[test]
fn relay_hands_each_output_to_the_next_stage() {
    let mut relay = Relay::new();
    assert!(matches!(relay.take_input(), Stdin::Inherited));
    relay.record(3, b"abc".to_vec());
    match relay.take_input() {
        Stdin::Piped(mut reader) => assert_eq!(reader.read_to_end(), b"abc".to_vec()),
        Stdin::Inherited => panic!("the output of the stage before is the input"),
    }
    relay.record(7, b"xyz".to_vec());
    let mut out = MemWriter::new();
    out.write(b"> ");
    assert_eq!(relay.finish(&mut out), 7);
    assert_eq!(out.into_inner(), b"> xyz".to_vec());
}

#[test]
fn relay_without_stages_writes_nothing() {
    let mut out = MemWriter::new();
    assert_eq!(Relay::new().finish(&mut out), 0);
    assert_eq!(out.into_inner(), Vec::<u8>::new());
}

#[test]
fn path_argument_resolves_to_its_text() {
    let ast = tree("cd ../..");
    if let AstNode::Command { argv, .. } = ast {
        assert_eq!(word_to_string(&empty_env(), &argv[1]).unwrap(), "../..");
    } else {
        panic!("Expected Command node");
    }
    let ast = tree("cmake .. -DCMAKE_BUILD_TYPE=Release");
    if let AstNode::Command { argv, .. } = ast {
        assert_eq!(argv.len(), 3);
        assert_eq!(word_to_string(&empty_env(), &argv[2]).unwrap(), "-DCMAKE_BUILD_TYPE=Release");
    } else {
        panic!("Expected Command node");
    }
}

#[test]
fn messages_of_errors() {
    assert_eq!(ExecError::CommandNotFound("ls".to_string()).message(), "command not found: ls");
    assert_eq!(ExecError::EmptyPipeline.message(), "empty pipeline");
    assert_eq!(ExecError::NotACommand.message(), "pipeline contains non-command node");
    assert_eq!(
        ExecError::UnsupportedSubstitution.message(),
        "Command substitutions not yet supported"
    );
    assert_eq!(ExecError::Spawn("denied".to_string()).message(), "failed spawn: denied");
    assert_eq!(ExecError::Io("broken pipe".to_string()).message(), "broken pipe");
    assert_eq!(ExecError::Builtin("failed".to_string()).message(), "failed");
}

// A factory that counts how often it is asked, and knows one name or none.
struct Counting {
    asked: std::rc::Rc<std::cell::Cell<usize>>,
    knows: Option<&'static str>,
}

impl CommandFactory for Counting {
    fn try_create(
        &self,
        _env: &Environment,
        name: &str,
        _args: &Vec<String>,
    ) -> Option<Box<dyn ExecutableCommand>> {
        self.asked.set(self.asked.get() + 1);
        if self.knows == Some(name) {
            Some(Box::new(Echo { no_newline: true, args: vec![name.to_string()] }))
        } else {
            None
        }
    }
}

#[test]
fn no_factory_is_asked_after_one_has_made_the_command() {
    let counters: Vec<std::rc::Rc<std::cell::Cell<usize>>> =
        (0..3).map(|_| std::rc::Rc::new(std::cell::Cell::new(0))).collect();
    let sh = Interpreter::new(
        empty_env(),
        vec![
            Box::new(Counting { asked: counters[0].clone(), knows: None }),
            Box::new(Counting { asked: counters[1].clone(), knows: Some("here") }),
            Box::new(Counting { asked: counters[2].clone(), knows: Some("here") }),
        ],
    );
    assert!(sh.create("here", &Vec::new()).is_some());
    let asked: Vec<usize> = counters.iter().map(|c| c.get()).collect();
    assert_eq!(asked, vec![1, 1, 0]);

    assert!(sh.create("nowhere", &Vec::new()).is_none());
    let asked: Vec<usize> = counters.iter().map(|c| c.get()).collect();
    assert_eq!(asked, vec![2, 2, 1]);
}

#[test]
fn no_factory_is_asked_for_an_assignment_only_stage() {
    let asked = std::rc::Rc::new(std::cell::Cell::new(0));
    let mut sh = Interpreter::new(
        empty_env(),
        vec![Box::new(Counting { asked: asked.clone(), knows: None }), Box::new(EchoFactory)],
    );
    let (result, out) = run(&mut sh, "echo hi | X=value");
    assert!(matches!(result, Ok(0)));
    assert_eq!(out, "");
    assert_eq!(asked.get(), 1);
    assert_eq!(sh.env().get_var("X"), None);

    let (result, out) = run(&mut sh, "X=value");
    assert!(matches!(result, Ok(0)));
    assert_eq!(out, "");
    assert_eq!(asked.get(), 1);
    assert_eq!(sh.env().get_var("X"), Some("value".to_string()));
}

#[test]
fn empty_registry_creates_nothing() {
    let sh = Interpreter::new(empty_env(), Vec::new());
    assert!(sh.create("echo", &Vec::new()).is_none());
}

#[test]
fn a_made_command_is_handed_on_and_runs_as_it_was_made() {
    let made: Option<Box<dyn ExecutableCommand>> =
        Some(Box::new(Echo { no_newline: false, args: vec!["hi".to_string()] }));
    let command = match command_or_unknown(made, "echo") {
        Ok(command) => command,
        Err(_) => panic!("a made command was refused"),
    };
    let mut sink = MemWriter::new();
    let mut env = empty_env();
    let code = command.execute(Stdin::Inherited, &mut sink, &mut env);
    assert!(matches!(code, Ok(0)));
    assert_eq!(sink.into_inner(), b"hi\n".to_vec());
}

#[test]
fn a_missing_command_is_unknown_under_its_name() {
    match command_or_unknown(None, "nosuchcmd") {
        Err(ExecError::CommandNotFound(name)) => assert_eq!(name, "nosuchcmd"),
        _ => panic!("expected the name to be reported as not found"),
    }
}
