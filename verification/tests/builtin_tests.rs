use shell_commands::builtin::{
    count_lines, count_text, count_words, format_counts, report_outcome, BuiltinCommand, Cat, Cd,
    Counts, Echo, FileInput,
    InvalidArgs, Pwd, WC,
};
use shell_commands::command::{ExecutableCommand, Stdin};
use shell_commands::env::Environment;
use shell_commands::grep::{select_lines, split_lines, Grep};
use shell_commands::text::{char_is_whitespace, decimal_string, join_with_spaces};
use shell_commands::{MemReader, MemWriter};

fn env_in(dir: &str) -> Environment {
    Environment::new(Vec::new(), dir.to_string())
}

fn file(name: &str, content: &str) -> FileInput {
    FileInput { name: name.to_string(), content: Ok(content.as_bytes().to_vec()) }
}

fn missing(name: &str) -> FileInput {
    FileInput { name: name.to_string(), content: Err("No such file or directory".to_string()) }
}

fn text_of(out: MemWriter) -> String {
    String::from_utf8(out.into_inner()).unwrap()
}

fn strings(items: &[&str]) -> Vec<String> {
    items.iter().map(|s| s.to_string()).collect()
}

#[test]
fn test_pwd_prints_current_dir() {
    let mut env = env_in("/home/user");
    let mut out = MemWriter::new();
    let cmd = Pwd {};
    let res = cmd.execute(&mut MemReader::new(Vec::new()), &mut out, &mut env);

    assert!(res.is_ok());
    assert_eq!(text_of(out), "/home/user\n");
}

#[test]
fn test_echo_with_and_without_newline() {
    let mut env = env_in("/");

    // With newline
    let mut out1 = MemWriter::new();
    let args = vec!["hello".to_string(), "world".to_string()];
    let echo1 = Echo { no_newline: false, args };
    let res1 = echo1.execute(&mut MemReader::new(Vec::new()), &mut out1, &mut env);

    assert!(res1.is_ok());
    assert_eq!(text_of(out1), "hello world\n");

    // Without newline
    let mut out2 = MemWriter::new();
    let args = vec!["foo".to_string(), "bar".to_string()];
    let echo2 = Echo { no_newline: true, args };
    let res2 = echo2.execute(&mut MemReader::new(Vec::new()), &mut out2, &mut env);

    assert!(res2.is_ok());
    assert_eq!(text_of(out2), "foo bar");
}

#[test]
fn echo_without_arguments_writes_a_newline() {
    let mut env = env_in("/");
    let mut out = MemWriter::new();
    let res = Echo { no_newline: false, args: Vec::new() }.execute(
        &mut MemReader::new(Vec::new()),
        &mut out,
        &mut env,
    );
    assert_eq!(res, Ok(0));
    assert_eq!(text_of(out), "\n");
}

#[test]
fn test_cat_reads_file() {
    let mut env = env_in("/");
    let cat = Cat { files: vec![file("a.txt", "hello\nworld\n")] };
    let mut out = MemWriter::new();
    let res = cat.execute(&mut MemReader::new(Vec::new()), &mut out, &mut env);
    assert!(res.is_ok());
    assert_eq!(text_of(out), "hello\nworld\n");
}

#[test]
fn test_cat_reads_stdin_when_no_args() {
    let mut env = env_in("/");
    let cat = Cat { files: Vec::new() };
    let input = b"from stdin\nline2\n".to_vec();
    let mut out = MemWriter::new();
    let res = cat.execute(&mut MemReader::new(input), &mut out, &mut env);
    assert!(res.is_ok());
    assert_eq!(text_of(out), "from stdin\nline2\n");
}

#[test]
fn cat_stops_at_the_first_file_that_cannot_be_read() {
    let mut env = env_in("/");
    let cat = Cat { files: vec![file("a", "one\n"), missing("b"), file("c", "three\n")] };
    let mut out = MemWriter::new();
    let res = cat.execute(&mut MemReader::new(Vec::new()), &mut out, &mut env);
    assert_eq!(res, Err("cat: b: No such file or directory".to_string()));
    assert_eq!(text_of(out), "one\n");
}

#[test]
fn cat_copies_file_bytes_as_they_are() {
    let mut env = env_in("/");
    let bytes = vec![0xff, 0x00, 0x80];
    let cat = Cat { files: vec![FileInput { name: "bin".to_string(), content: Ok(bytes.clone()) }] };
    let mut out = MemWriter::new();
    assert_eq!(cat.execute(&mut MemReader::new(Vec::new()), &mut out, &mut env), Ok(0));
    assert_eq!(out.into_inner(), bytes);
}

#[test]
fn cat_refuses_input_that_is_no_utf8() {
    let mut env = env_in("/");
    let mut out = MemWriter::new();
    let res = Cat { files: Vec::new() }.execute(&mut MemReader::new(vec![0xff]), &mut out, &mut env);
    assert_eq!(res, Err("stream did not contain valid UTF-8".to_string()));
    assert_eq!(out.into_inner(), Vec::<u8>::new());
}

#[test]
fn test_wc_counts_file() {
    let mut env = env_in("/");
    // two lines, three words, bytes include newlines
    let wc = WC { files: vec![file("/tmp/wc_test_file", "one two\nthree\n")] };
    let mut out = MemWriter::new();
    let res = wc.execute(&mut MemReader::new(Vec::new()), &mut out, &mut env);
    assert!(res.is_ok());

    let s = text_of(out);
    assert_eq!(s, "2 3 14 /tmp/wc_test_file\n");
}

#[test]
fn test_wc_counts_stdin_when_no_args() {
    let mut env = env_in("/");
    let wc = WC { files: Vec::new() };
    let input = b"a b c\n".to_vec(); // 1 line, 3 words, bytes = 6 (including newline)
    let mut out = MemWriter::new();
    let res = wc.execute(&mut MemReader::new(input), &mut out, &mut env);
    assert!(res.is_ok());
    assert_eq!(text_of(out), "1 3 6\n");
}

#[test]
fn test_wc_multiple_files_output_contains_each_filename() {
    let mut env = env_in("/");
    let wc = WC { files: vec![file("wc_multi_1", "a b\n"), file("wc_multi_2", "c\n")] };
    let mut out = MemWriter::new();
    let res = wc.execute(&mut MemReader::new(Vec::new()), &mut out, &mut env);
    assert!(res.is_ok());
    assert_eq!(text_of(out), "1 2 4 wc_multi_1\n1 1 2 wc_multi_2\n");
}

#[test]
fn wc_stops_at_the_first_file_that_cannot_be_read() {
    let mut env = env_in("/");
    let wc = WC { files: vec![file("a", "x\n"), missing("b"), file("c", "y\n")] };
    let mut out = MemWriter::new();
    let res = wc.execute(&mut MemReader::new(Vec::new()), &mut out, &mut env);
    assert_eq!(res, Err("wc: b: No such file or directory".to_string()));
    assert_eq!(text_of(out), "1 1 2 a\n");
}

#[test]
fn wc_refuses_input_that_is_no_utf8() {
    let mut env = env_in("/");
    let mut out = MemWriter::new();
    let res = WC { files: Vec::new() }.execute(&mut MemReader::new(vec![0xc3]), &mut out, &mut env);
    assert_eq!(res, Err("stream did not contain valid UTF-8".to_string()));
}

#[test]
fn counts_follow_the_standard_library() {
    for text in [
        "",
        "\n",
        "a",
        "a\n",
        "a\nb",
        "a\n\nb\n",
        "  lead and trail  ",
        "tabs\tand\u{a0}no-break\u{2003}spaces",
        "é ü\r\nx",
        "\n\n\n",
    ] {
        let counts = count_text(text);
        assert_eq!(counts.lines, text.lines().count(), "lines of {:?}", text);
        assert_eq!(counts.words, text.split_whitespace().count(), "words of {:?}", text);
        assert_eq!(counts.bytes, text.len());
    }
}

#[test]
fn counts_line_has_the_three_numbers() {
    let counts = Counts { lines: 10, words: 205, bytes: 0 };
    assert_eq!(format_counts(counts, None), "10 205 0\n");
    assert_eq!(format_counts(counts, Some("f")), "10 205 0 f\n");
}

#[test]
fn decimal_of_numbers() {
    for n in [0usize, 7, 9, 10, 11, 99, 100, 12345, usize::MAX] {
        assert_eq!(decimal_string(n), format!("{}", n));
    }
}

#[test]
fn join_of_words() {
    assert_eq!(join_with_spaces(&Vec::new()), "");
    assert_eq!(join_with_spaces(&strings(&["a"])), "a");
    assert_eq!(join_with_spaces(&strings(&["a", "", "b c"])), "a  b c");
}

#[test]
fn failure_of_a_builtin_becomes_exit_code_one_and_text() {
    let mut out = MemWriter::new();
    out.write(b"so far ");
    assert_eq!(report_outcome(Err("wc: x: gone".to_string()), &mut out), 1);
    assert_eq!(text_of(out), "so far wc: x: gone");

    let mut out = MemWriter::new();
    assert_eq!(report_outcome(Ok(3), &mut out), 3);
    assert_eq!(text_of(out), "");
}

#[test]
fn builtin_as_command_reports_its_failure_on_the_output() {
    let mut env = env_in("/");
    let mut out = MemWriter::new();
    let command: Box<dyn ExecutableCommand> = Box::new(WC { files: vec![missing("nowhere")] });
    let res = command.execute(Stdin::Inherited, &mut out, &mut env);
    assert!(matches!(res, Ok(1)));
    assert_eq!(text_of(out), "wc: nowhere: No such file or directory");
}

#[test]
fn builtin_as_command_reads_what_was_piped() {
    let mut env = env_in("/");
    let mut out = MemWriter::new();
    let command: Box<dyn ExecutableCommand> = Box::new(Cat { files: Vec::new() });
    let res = command.execute(Stdin::Piped(MemReader::new(b"abc".to_vec())), &mut out, &mut env);
    assert!(matches!(res, Ok(0)));
    assert_eq!(text_of(out), "abc");
}

#[test]
fn invalid_arguments_report() {
    let mut out = MemWriter::new();
    let refused = InvalidArgs { output: "Unrecognized argument: -x\n".to_string(), is_error: true };
    assert_eq!(refused.report(&mut out), 1);
    assert_eq!(text_of(out), "Unrecognized argument: -x\n");

    let mut out = MemWriter::new();
    let help = InvalidArgs { output: "Usage: echo\n".to_string(), is_error: false };
    assert_eq!(help.report(&mut out), 0);
    assert_eq!(text_of(out), "Usage: echo\n");
}

#[test]
fn invalid_arguments_as_a_command() {
    let mut env = env_in("/");
    let mut out = MemWriter::new();
    let command: Box<dyn ExecutableCommand> =
        Box::new(InvalidArgs { output: "bad flag\n".to_string(), is_error: true });
    assert!(matches!(command.execute(Stdin::Inherited, &mut out, &mut env), Ok(1)));
    assert_eq!(text_of(out), "bad flag\n");
}

#[test]
fn names_of_the_builtins() {
    assert_eq!(Pwd::name(), "pwd");
    assert_eq!(Echo::name(), "echo");
    assert_eq!(WC::name(), "wc");
    assert_eq!(Cat::name(), "cat");
    assert_eq!(Grep::name(), "grep");
}

#[test]
fn cd_destination_of_each_kind_of_target() {
    let mut env = env_in("/home/user");
    assert_eq!(Cd { target: Some("/tmp".to_string()) }.destination(&env), Ok("/tmp".to_string()));
    assert_eq!(
        Cd { target: Some("src".to_string()) }.destination(&env),
        Ok("/home/user/src".to_string())
    );
    assert_eq!(
        Cd { target: Some("..".to_string()) }.destination(&env),
        Ok("/home/user/..".to_string())
    );
    assert_eq!(
        Cd { target: None }.destination(&env),
        Err("cd: no target and HOME not set".to_string())
    );
    assert_eq!(
        Cd { target: Some(String::new()) }.destination(&env),
        Err("cd: no target and HOME not set".to_string())
    );
    env.set_var("HOME", "/root");
    assert_eq!(Cd { target: None }.destination(&env), Ok("/root".to_string()));
    assert_eq!(Cd { target: Some(String::new()) }.destination(&env), Ok("/root".to_string()));
    env.set_var("HOME", "work");
    assert_eq!(Cd { target: None }.destination(&env), Ok("/home/user/work".to_string()));

    let root = env_in("/");
    assert_eq!(Cd { target: Some("etc".to_string()) }.destination(&root), Ok("/etc".to_string()));
}

fn grep(pattern: &str, files: Vec<FileInput>, ignore_case: bool, after_context: usize) -> Grep {
    Grep { pattern: pattern.to_string(), files, word_regexp: false, ignore_case, after_context }
}

#[test]
fn test_grep_ignore_case_i_isolated() {
    let mut env = env_in("/");
    let mut out = MemWriter::new();
    let filename = "/tmp/test_data.txt";
    let grep = grep("target", vec![file(filename, "Target 1\nTaRgEt 2\nNo match\n")], true, 0);

    assert_eq!(grep.execute(&mut MemReader::new(Vec::new()), &mut out, &mut env), Ok(0));

    let expected = format!("{}:Target 1\n{}:TaRgEt 2\n", filename, filename);
    assert_eq!(text_of(out), expected);
}

#[test]
fn test_grep_trailing_context_a_1_isolated() {
    let content = "Line 1\nMATCH 1\nLine 3\nLine 4\nMATCH 2\nLine 6\nLine 7\nLine 8\n";
    let mut env = env_in("/");
    let mut out = MemWriter::new();
    let filename = "/tmp/test_data.txt";
    let grep = grep("MATCH", vec![file(filename, content)], false, 1);

    assert_eq!(grep.execute(&mut MemReader::new(Vec::new()), &mut out, &mut env), Ok(0));

    let expected = format!(
        "{}:MATCH 1\n\
        {}:Line 3\n\
        --\n\
        {}:MATCH 2\n\
        {}:Line 6\n",
        filename, filename, filename, filename
    );
    assert_eq!(text_of(out), expected);
}

#[test]
fn test_grep_context_overlap_a_2_isolated() {
    let content = "MATCH 1\nLine 2\nMATCH 2\nLine 4\nLine 5\nLine 6\n";
    let mut env = env_in("/");
    let mut out = MemWriter::new();
    let filename = "/tmp/test_data.txt";
    let grep = grep("MATCH", vec![file(filename, content)], false, 2);

    assert_eq!(grep.execute(&mut MemReader::new(Vec::new()), &mut out, &mut env), Ok(0));

    let expected = format!(
        "{}:MATCH 1\n\
        {}:Line 2\n\
        {}:MATCH 2\n\
        {}:Line 4\n\
        {}:Line 5\n",
        filename, filename, filename, filename, filename
    );
    assert_eq!(text_of(out), expected);
}

#[test]
fn test_grep_stdin_pipe_isolated() {
    let mut shell_env = env_in("/");
    let mut out = MemWriter::new();

    let grep = Grep {
        pattern: "pipe".to_string(),
        files: Vec::new(), // <- stdin
        word_regexp: false,
        ignore_case: false,
        after_context: 0,
    };

    let input = b"Line 1\nLine with pipe target\nLine 3\n".to_vec();

    assert_eq!(grep.execute(&mut MemReader::new(input), &mut out, &mut shell_env), Ok(0));
    let s = text_of(out);

    // Lines of the input carry no file name.
    assert_eq!(s, "Line with pipe target\n");
}

#[test]
fn grep_whole_words() {
    let mut env = env_in("/");
    let mut out = MemWriter::new();
    let grep = Grep {
        pattern: "cat".to_string(),
        files: Vec::new(),
        word_regexp: true,
        ignore_case: false,
        after_context: 0,
    };
    let input = b"concatenate\nthe cat sat\ncat\ncats\n".to_vec();
    assert_eq!(grep.execute(&mut MemReader::new(input), &mut out, &mut env), Ok(0));
    assert_eq!(text_of(out), "the cat sat\ncat\n");
}

#[test]
fn grep_refuses_a_pattern_that_does_not_compile() {
    let mut env = env_in("/");
    let mut out = MemWriter::new();
    let res = grep("(", Vec::new(), false, 0).execute(
        &mut MemReader::new(b"x\n".to_vec()),
        &mut out,
        &mut env,
    );
    assert_eq!(res, Err("Invalid regex pattern: (".to_string()));
    let res = Grep {
        pattern: "(".to_string(),
        files: Vec::new(),
        word_regexp: true,
        ignore_case: false,
        after_context: 0,
    }
    .execute(&mut MemReader::new(Vec::new()), &mut out, &mut env);
    assert_eq!(res, Err("Invalid regex pattern: \\b(()\\b".to_string()));
    assert_eq!(text_of(out), "");
}

#[test]
fn grep_reports_files_that_cannot_be_searched_and_goes_on() {
    let mut env = env_in("/");
    let mut out = MemWriter::new();
    let files = vec![
        missing("gone"),
        file("a", "x\ny\n"),
        FileInput { name: "bin".to_string(), content: Ok(vec![0xff, b'\n']) },
    ];
    let res = grep("x", files, false, 0).execute(&mut MemReader::new(Vec::new()), &mut out, &mut env);
    assert_eq!(res, Ok(1));
    assert_eq!(
        text_of(out),
        "grep: gone: No such file or directory\na:x\n\
         grep: bin: read error: stream did not contain valid UTF-8\n"
    );
}

#[test]
fn grep_refuses_input_that_is_no_utf8() {
    let mut env = env_in("/");
    let mut out = MemWriter::new();
    let res =
        grep("x", Vec::new(), false, 0).execute(&mut MemReader::new(vec![0xff]), &mut out, &mut env);
    assert_eq!(res, Err("read error: stream did not contain valid UTF-8".to_string()));
}

#[test]
fn grep_on_empty_input_prints_nothing() {
    let mut env = env_in("/");
    let mut out = MemWriter::new();
    let res =
        grep("x", Vec::new(), false, 3).execute(&mut MemReader::new(Vec::new()), &mut out, &mut env);
    assert_eq!(res, Ok(0));
    assert_eq!(text_of(out), "");
}

#[test]
fn lines_keep_their_newlines() {
    assert_eq!(split_lines(""), Vec::<String>::new());
    assert_eq!(split_lines("a"), strings(&["a"]));
    assert_eq!(split_lines("a\n"), strings(&["a\n"]));
    assert_eq!(split_lines("a\n\nb"), strings(&["a\n", "\n", "b"]));
    assert_eq!(split_lines("\n"), strings(&["\n"]));
}

#[test]
fn selection_of_lines_with_context() {
    let lines = strings(&["0\n", "1\n", "2\n", "3\n", "4\n", "5\n", "6\n"]);
    let matched = vec![false, true, false, false, false, true, false];
    assert_eq!(select_lines(&lines, &matched, 0, ""), "1\n5\n");
    assert_eq!(select_lines(&lines, &matched, 1, ""), "1\n2\n--\n5\n6\n");
    assert_eq!(select_lines(&lines, &matched, 3, "f:"), "f:1\nf:2\nf:3\nf:4\nf:5\nf:6\n");
    assert_eq!(select_lines(&lines, &matched, usize::MAX, ""), "1\n2\n3\n4\n5\n6\n");
    assert_eq!(select_lines(&lines, &vec![false; 7], 2, ""), "");
    // Lines of which nothing is told do not match.
    assert_eq!(select_lines(&lines, &vec![false, true], 1, ""), "1\n2\n");
    // Without context no separator is written, whatever is passed over.
    let matched = vec![true, false, false, false, false, false, true];
    assert_eq!(select_lines(&lines, &matched, 0, ""), "0\n6\n");
    assert_eq!(select_lines(&lines, &matched, 1, ""), "0\n1\n--\n6\n");
}

#[test]
fn words_are_runs_between_white_space() {
    assert_eq!(count_words(&vec![]), 0);
    assert_eq!(count_words(&vec![true, true]), 0);
    assert_eq!(count_words(&vec![false]), 1);
    assert_eq!(count_words(&vec![false, false, true, false]), 2);
    assert_eq!(count_words(&vec![true, false, true, true, false, false, true]), 2);
}

#[test]
fn lines_end_at_newlines() {
    let chars = |s: &str| s.chars().collect::<Vec<char>>();
    assert_eq!(count_lines(&chars("")), 0);
    assert_eq!(count_lines(&chars("a")), 1);
    assert_eq!(count_lines(&chars("a\n")), 1);
    assert_eq!(count_lines(&chars("a\nb")), 2);
    assert_eq!(count_lines(&chars("\n\n")), 2);
}

#[test]
fn white_space_is_that_of_the_standard_library() {
    for n in 0..=0x10ffffu32 {
        if let Some(c) = char::from_u32(n) {
            assert_eq!(char_is_whitespace(c), c.is_whitespace(), "U+{:04X}", n);
        }
    }
}
