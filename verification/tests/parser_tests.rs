use shell_commands::lexer::{split_into_tokens, Token, WordPart};
use shell_commands::parser::{
    construct_ast, handle_substitutions_in_word, AstNode, ParsingError, RedirectKind, Word,
};

fn lit(s: &str) -> Word {
    Word::Literal(s.to_string())
}

fn word(s: &str) -> Token {
    Token::Word(vec![WordPart::Literal(s.to_string())])
}

// Checks that a compound word is made of literal parts that spell `expected`.
fn assert_compound_eq(word: &Word, expected: &str) {
    if let Word::Compound(parts) = word {
        let actual: String = parts
            .iter()
            .map(|p| match p {
                WordPart::Literal(s) => s.clone(),
                _ => panic!("Expected only Literal parts in compound for this test"),
            })
            .collect();
        assert_eq!(actual, expected);
    } else {
        panic!("Expected Word::Compound, got {:?}", word);
    }
}

#[test]
fn test_cmake_args_consolidation_fix() {
    // Tokens for "cmake .. -DCMAKE_BUILD_TYPE=Release"
    let tokens = vec![
        Token::Word(vec![WordPart::Literal("cmake".to_string())]),
        Token::Word(vec![WordPart::Literal("..".to_string())]),
        Token::Word(vec![WordPart::Literal("-DCMAKE_BUILD_TYPE".to_string())]),
        Token::Equal,
        Token::Word(vec![WordPart::Literal("Release".to_string())]),
    ];

    let ast = construct_ast(tokens).unwrap();

    if let AstNode::Command { argv, .. } = ast {
        assert_eq!(argv.len(), 3, "Should have 3 arguments: cmake, .., and -D...");
        assert_eq!(argv[0], lit("cmake"));
        assert_eq!(argv[1], lit(".."));

        // The flag should be consolidated into one argument
        assert_compound_eq(&argv[2], "-DCMAKE_BUILD_TYPE=Release");
    } else {
        panic!("Expected Command node");
    }
}

#[test]
fn test_path_argument_fix_cd_parent() {
    let tokens = vec![
        Token::Word(vec![WordPart::Literal("cd".to_string())]),
        Token::Word(vec![WordPart::Literal("..".to_string())]),
        Token::Slash,
        Token::Word(vec![WordPart::Literal("..".to_string())]),
    ];
    let ast = construct_ast(tokens).unwrap();

    if let AstNode::Command { argv, .. } = ast {
        assert_eq!(argv.len(), 2, "Command should have 2 arguments: 'cd' and '.. / ..'");
        assert_eq!(argv[0], lit("cd"), "First argument must be the command 'cd'");

        assert_compound_eq(&argv[1], "../..");
    } else {
        panic!("Expected Command node");
    }
}

#[test]
fn parses_line_from_lexer() {
    let tokens = split_into_tokens("cd ../..".to_string()).unwrap();
    assert_eq!(tokens, vec![word("cd"), word(".."), Token::Slash, word("..")]);
    let ast = construct_ast(tokens).unwrap();
    if let AstNode::Command { argv, assignments, redirects } = ast {
        assert_eq!(argv.len(), 2);
        assert_compound_eq(&argv[1], "../..");
        assert!(assignments.is_empty());
        assert!(redirects.is_empty());
    } else {
        panic!("Expected Command node");
    }
}

#[test]
fn single_command_is_not_wrapped_in_pipeline() {
    let ast = construct_ast(vec![word("ls")]).unwrap();
    assert!(matches!(ast, AstNode::Command { .. }));
}

#[test]
fn pipeline_keeps_stage_order() {
    let ast = construct_ast(vec![word("a"), Token::PipeOp, word("b"), Token::PipeOp, word("c")])
        .unwrap();
    if let AstNode::Pipeline(stages) = ast {
        assert_eq!(stages.len(), 3);
        let names: Vec<Word> = stages
            .into_iter()
            .map(|s| match s {
                AstNode::Command { argv, .. } => argv[0].clone(),
                _ => panic!("stage is no command"),
            })
            .collect();
        assert_eq!(names, vec![lit("a"), lit("b"), lit("c")]);
    } else {
        panic!("Expected Pipeline node");
    }
}

#[test]
fn assignment_before_command() {
    let ast = construct_ast(vec![word("X"), Token::Equal, word("1"), word("env")]).unwrap();
    if let AstNode::Command { argv, assignments, .. } = ast {
        assert_eq!(argv, vec![lit("env")]);
        assert_eq!(assignments.len(), 1);
        match &assignments[0] {
            AstNode::Assignment { name, value } => {
                assert_eq!(name, "X");
                assert_eq!(value, &Some(lit("1")));
            }
            _ => panic!("Expected Assignment node"),
        }
    } else {
        panic!("Expected Command node");
    }
}

#[test]
fn assignment_without_value() {
    let ast = construct_ast(vec![word("X"), Token::Equal]).unwrap();
    if let AstNode::Command { argv, assignments, .. } = ast {
        assert!(argv.is_empty());
        match &assignments[0] {
            AstNode::Assignment { name, value } => {
                assert_eq!(name, "X");
                assert_eq!(value, &None);
            }
            _ => panic!("Expected Assignment node"),
        }
    } else {
        panic!("Expected Command node");
    }
}

#[test]
fn digit_before_equal_is_an_argument() {
    let ast = construct_ast(vec![word("1"), Token::Equal, word("value")]).unwrap();
    if let AstNode::Command { argv, assignments, .. } = ast {
        assert!(assignments.is_empty());
        assert_eq!(argv.len(), 1);
        assert_compound_eq(&argv[0], "1=value");
    } else {
        panic!("Expected Command node");
    }
}

#[test]
fn word_before_equal_after_argument_is_an_argument() {
    let ast = construct_ast(vec![word("env"), word("X"), Token::Equal, word("1")]).unwrap();
    if let AstNode::Command { argv, assignments, .. } = ast {
        assert!(assignments.is_empty());
        assert_eq!(argv.len(), 2);
        assert_compound_eq(&argv[1], "X=1");
    } else {
        panic!("Expected Command node");
    }
}

#[test]
fn absolute_path_is_one_word() {
    let ast = construct_ast(vec![Token::Slash, word("bin"), Token::Slash, word("sh")]).unwrap();
    if let AstNode::Command { argv, .. } = ast {
        assert_eq!(argv.len(), 1);
        assert_compound_eq(&argv[0], "/bin/sh");
    } else {
        panic!("Expected Command node");
    }
}

#[test]
fn lone_slash_is_a_literal() {
    let ast = construct_ast(vec![Token::Slash]).unwrap();
    if let AstNode::Command { argv, .. } = ast {
        assert_eq!(argv, vec![lit("/")]);
    } else {
        panic!("Expected Command node");
    }
}

#[test]
fn word_before_a_slash_begins_a_path() {
    let ast = construct_ast(vec![word("ls"), Token::Slash]).unwrap();
    if let AstNode::Command { argv, .. } = ast {
        assert_eq!(argv.len(), 1);
        assert_compound_eq(&argv[0], "ls/");
    } else {
        panic!("Expected Command node");
    }
}

#[test]
fn slash_as_redirect_target() {
    let ast = construct_ast(vec![word("ls"), Token::RedirectRight, Token::Slash]).unwrap();
    if let AstNode::Command { redirects, .. } = ast {
        match &redirects[0] {
            AstNode::Redirect { kind, target } => {
                assert_eq!(*kind, RedirectKind::Output);
                assert_eq!(target, &lit("/"));
            }
            _ => panic!("Expected Redirect node"),
        }
    } else {
        panic!("Expected Command node");
    }
}

#[test]
fn redirections_of_each_kind() {
    let ast = construct_ast(vec![
        word("sort"),
        Token::RedirectLeft,
        word("in"),
        Token::RedirectRight,
        word("out"),
        Token::RedirectRight,
        Token::RedirectRight,
        word("log"),
    ])
    .unwrap();
    if let AstNode::Command { argv, redirects, .. } = ast {
        assert_eq!(argv, vec![lit("sort")]);
        let seen: Vec<(RedirectKind, Word)> = redirects
            .into_iter()
            .map(|r| match r {
                AstNode::Redirect { kind, target } => (kind, target),
                _ => panic!("Expected Redirect node"),
            })
            .collect();
        assert_eq!(
            seen,
            vec![
                (RedirectKind::Input, lit("in")),
                (RedirectKind::Output, lit("out")),
                (RedirectKind::Append, lit("log")),
            ]
        );
    } else {
        panic!("Expected Command node");
    }
}

#[test]
fn redirect_only_command_is_accepted() {
    let ast = construct_ast(vec![Token::RedirectRight, word("out")]).unwrap();
    assert!(matches!(ast, AstNode::Command { .. }));
}

#[test]
fn empty_input_is_an_empty_pipeline() {
    assert!(matches!(construct_ast(vec![]), Err(ParsingError::EmptyPipeline)));
}

#[test]
fn leading_and_trailing_pipe_are_empty_pipelines() {
    assert!(matches!(
        construct_ast(vec![Token::PipeOp, word("a")]),
        Err(ParsingError::EmptyPipeline)
    ));
    assert!(matches!(
        construct_ast(vec![word("a"), Token::PipeOp]),
        Err(ParsingError::EmptyPipeline)
    ));
}

#[test]
fn equal_at_command_start_is_unexpected() {
    assert!(matches!(
        construct_ast(vec![Token::Equal, word("a")]),
        Err(ParsingError::UnexpectedToken(Token::Equal))
    ));
}

#[test]
fn redirect_without_target_is_unexpected_end() {
    assert!(matches!(
        construct_ast(vec![word("a"), Token::RedirectRight]),
        Err(ParsingError::UnexpectedEnd)
    ));
}

#[test]
fn redirect_before_pipe_is_unexpected_token() {
    assert!(matches!(
        construct_ast(vec![word("a"), Token::RedirectLeft, Token::PipeOp, word("b")]),
        Err(ParsingError::UnexpectedToken(Token::PipeOp))
    ));
}

#[test]
fn assignment_value_cannot_be_a_redirect() {
    assert!(matches!(
        construct_ast(vec![word("X"), Token::Equal, Token::RedirectLeft, word("f")]),
        Err(ParsingError::UnexpectedToken(Token::RedirectLeft))
    ));
}

#[test]
fn substitution_parts_make_a_compound_word() {
    let tokens = vec![
        word("echo"),
        Token::Word(vec![
            WordPart::Literal("a".to_string()),
            WordPart::ParamSubst("X".to_string()),
        ]),
        Token::Word(vec![WordPart::CmdSubst("date".to_string())]),
    ];
    let ast = construct_ast(tokens).unwrap();
    if let AstNode::Command { argv, .. } = ast {
        assert_eq!(
            argv[1],
            Word::Compound(vec![
                WordPart::Literal("a".to_string()),
                WordPart::ParamSubst("X".to_string()),
            ])
        );
        assert_eq!(argv[2], Word::Compound(vec![WordPart::CmdSubst("date".to_string())]));
    } else {
        panic!("Expected Command node");
    }
}

#[test]
fn word_without_parts_is_the_empty_literal() {
    let ast = construct_ast(vec![word("echo"), Token::Word(vec![])]).unwrap();
    if let AstNode::Command { argv, .. } = ast {
        assert_eq!(argv, vec![lit("echo"), lit("")]);
    } else {
        panic!("Expected Command node");
    }
}

#[test]
fn parser_test_cmake_args_consolidation_fix() {
    // Tokens for "cmake .. -DCMAKE_BUILD_TYPE=Release"
    let tokens = vec![
        Token::Word(vec![WordPart::Literal("cmake".to_string())]),
        Token::Word(vec![WordPart::Literal("..".to_string())]),
        Token::Word(vec![WordPart::Literal("-DCMAKE_BUILD_TYPE".to_string())]),
        Token::Equal,
        Token::Word(vec![WordPart::Literal("Release".to_string())]),
    ];

    let ast = construct_ast(tokens).unwrap();

    if let AstNode::Command { argv, .. } = ast {
        assert_eq!(argv.len(), 3, "Should have 3 arguments: cmake, .., and -D...");
        assert_eq!(argv[0], lit("cmake"));
        assert_eq!(argv[1], lit(".."));

        // The flag should be consolidated into one argument
        assert_compound_eq(&argv[2], "-DCMAKE_BUILD_TYPE=Release");
    } else {
        panic!("Expected Command node");
    }
}

#[test]
fn parser_test_path_argument_fix_cd_parent() {
    let tokens = vec![
        Token::Word(vec![WordPart::Literal("cd".to_string())]),
        Token::Word(vec![WordPart::Literal("..".to_string())]),
        Token::Slash,
        Token::Word(vec![WordPart::Literal("..".to_string())]),
    ];
    let ast = construct_ast(tokens).unwrap();

    if let AstNode::Command { argv, .. } = ast {
        assert_eq!(argv.len(), 2, "Command should have 2 arguments: 'cd' and '.. / ..'");
        assert_eq!(argv[0], lit("cd"), "First argument must be the command 'cd'");

        assert_compound_eq(&argv[1], "../..");
    } else {
        panic!("Expected Command node");
    }
}

#[test]
fn words_without_substitution_are_accepted() {
    assert_eq!(handle_substitutions_in_word(vec![WordPart::Literal("a".to_string())]).unwrap(), lit("a"));
    assert_eq!(
        handle_substitutions_in_word(vec![
            WordPart::Literal("a".to_string()),
            WordPart::Literal("b".to_string()),
        ])
        .unwrap(),
        Word::Compound(vec![WordPart::Literal("a".to_string()), WordPart::Literal("b".to_string())])
    );
    assert_eq!(handle_substitutions_in_word(vec![]).unwrap(), lit(""));
}

#[test]
fn words_with_a_substitution_are_refused() {
    assert!(matches!(
        handle_substitutions_in_word(vec![
            WordPart::Literal("a".to_string()),
            WordPart::ParamSubst("X".to_string()),
        ]),
        Err(ParsingError::UnsupportedSubstitution)
    ));
    assert!(matches!(
        handle_substitutions_in_word(vec![WordPart::CmdSubst("date".to_string())]),
        Err(ParsingError::UnsupportedSubstitution)
    ));
}

#[test]
fn lines_that_lex_and_parse() {
    for line in [
        "ls",
        "ls -l /tmp",
        "echo 'single quoted' \"double quoted\"",
        "X=1 Y=2 env",
        "X=",
        "cat < in > out",
        "cat >> log",
        "a | b | c",
        "echo $HOME ${USER} $(date)",
        "cmake .. -DCMAKE_BUILD_TYPE=Release",
        "cd ../..",
        "./run --flag=value | grep -i x > result",
    ] {
        let tokens = split_into_tokens(line.to_string()).expect(line);
        assert!(construct_ast(tokens).is_ok(), "{}", line);
    }
}

#[test]
fn clones_are_equal() {
    let token = Token::Word(vec![
        WordPart::Literal("a".to_string()),
        WordPart::ParamSubst("b".to_string()),
        WordPart::CmdSubst("c".to_string()),
    ]);
    assert_eq!(token.clone(), token);
    let word = Word::Compound(vec![WordPart::Literal("a".to_string())]);
    assert_eq!(word.clone(), word);
    assert_eq!(lit("x").clone(), lit("x"));
}

#[test]
fn written_line_is_read_back() {
    let line = "A = 1 B = two run -x arg < in > out >> log | next item | last";
    let ast = construct_ast(split_into_tokens(line.to_string()).unwrap()).unwrap();
    let stages = match ast {
        AstNode::Pipeline(stages) => stages,
        other => panic!("Expected Pipeline node, got {:?}", other),
    };
    assert_eq!(stages.len(), 3);
    match &stages[0] {
        AstNode::Command { argv, assignments, redirects } => {
            assert_eq!(argv, &vec![lit("run"), lit("-x"), lit("arg")]);
            assert_eq!(assignments.len(), 2);
            match (&assignments[0], &assignments[1]) {
                (
                    AstNode::Assignment { name: first, value: one },
                    AstNode::Assignment { name: second, value: two },
                ) => {
                    assert_eq!((first.as_str(), one), ("A", &Some(lit("1"))));
                    assert_eq!((second.as_str(), two), ("B", &Some(lit("two"))));
                }
                _ => panic!("Expected Assignment nodes"),
            }
            assert_eq!(redirects.len(), 3);
            let kinds: Vec<(RedirectKind, Word)> = redirects
                .iter()
                .map(|r| match r {
                    AstNode::Redirect { kind, target } => (*kind, target.clone()),
                    _ => panic!("Expected Redirect node"),
                })
                .collect();
            assert_eq!(
                kinds,
                vec![
                    (RedirectKind::Input, lit("in")),
                    (RedirectKind::Output, lit("out")),
                    (RedirectKind::Append, lit("log")),
                ]
            );
        }
        other => panic!("Expected Command node, got {:?}", other),
    }
    match &stages[1] {
        AstNode::Command { argv, .. } => assert_eq!(argv, &vec![lit("next"), lit("item")]),
        other => panic!("Expected Command node, got {:?}", other),
    }
    match &stages[2] {
        AstNode::Command { argv, .. } => assert_eq!(argv, &vec![lit("last")]),
        other => panic!("Expected Command node, got {:?}", other),
    }
}
