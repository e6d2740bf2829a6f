use shell_commands::lexer::{split_into_tokens, word_part_of, LexingError, Token, WordPart};

fn lex(line: &str) -> Result<Vec<Token>, LexingError> {
    split_into_tokens(line.to_string())
}

fn lit(s: &str) -> WordPart {
    WordPart::Literal(s.to_string())
}

fn word(s: &str) -> Token {
    Token::Word(vec![lit(s)])
}

#[test]
fn empty_line_has_no_tokens() {
    assert_eq!(lex(""), Ok(vec![]));
    assert_eq!(lex("  \t "), Ok(vec![]));
}

#[test]
fn blanks_separate_words_and_collapse() {
    assert_eq!(lex("echo   hello\tworld"), Ok(vec![word("echo"), word("hello"), word("world")]));
}

#[test]
fn operators_are_tokens_of_their_own() {
    assert_eq!(
        lex("a|b=c/d<e>f"),
        Ok(vec![
            word("a"),
            Token::PipeOp,
            word("b"),
            Token::Equal,
            word("c"),
            Token::Slash,
            word("d"),
            Token::RedirectLeft,
            word("e"),
            Token::RedirectRight,
            word("f"),
        ])
    );
}

#[test]
fn operators_between_blanks() {
    assert_eq!(lex("a | b"), Ok(vec![word("a"), Token::PipeOp, word("b")]));
    assert_eq!(lex(">> x"), Ok(vec![Token::RedirectRight, Token::RedirectRight, word("x")]));
}

#[test]
fn dot_is_part_of_a_word() {
    assert_eq!(lex("cd .."), Ok(vec![word("cd"), word("..")]));
    assert_eq!(lex("a.txt"), Ok(vec![word("a.txt")]));
}

#[test]
fn path_is_split_at_slashes() {
    assert_eq!(lex("../.."), Ok(vec![word(".."), Token::Slash, word("..")]));
}

#[test]
fn single_quotes_keep_everything() {
    assert_eq!(lex("'a b|c$d'"), Ok(vec![word("a b|c$d")]));
    assert_eq!(lex("''"), Ok(vec![word("")]));
}

#[test]
fn double_quotes_keep_blanks_and_operators() {
    assert_eq!(lex("echo \"22\""), Ok(vec![word("echo"), word("22")]));
    assert_eq!(lex("\"a b|c\""), Ok(vec![word("a b|c")]));
}

#[test]
fn dollar_name_in_double_quotes_is_text() {
    assert_eq!(lex("\"$a b\""), Ok(vec![word("$a b")]));
}

#[test]
fn text_continues_into_quotes() {
    assert_eq!(lex("ab\"cd\""), Ok(vec![word("abcd")]));
    assert_eq!(lex("ab'cd'"), Ok(vec![word("abcd")]));
}

#[test]
fn text_after_quotes_is_a_new_part() {
    assert_eq!(lex("'ab'cd"), Ok(vec![Token::Word(vec![lit("ab"), lit("cd")])]));
}

#[test]
fn bare_parameter() {
    assert_eq!(lex("$HOME"), Ok(vec![Token::Word(vec![WordPart::ParamSubst("HOME".to_string())])]));
    assert_eq!(lex("$_x"), Ok(vec![Token::Word(vec![WordPart::ParamSubst("_x".to_string())])]));
    assert_eq!(
        lex("a$b"),
        Ok(vec![Token::Word(vec![lit("a"), WordPart::ParamSubst("b".to_string())])])
    );
}

#[test]
fn dollar_without_name_is_text() {
    assert_eq!(lex("$"), Ok(vec![word("$")]));
    assert_eq!(lex("$1"), Ok(vec![word("$1")]));
    assert_eq!(lex("a $ b"), Ok(vec![word("a"), word("$"), word("b")]));
}

#[test]
fn bare_parameter_ends_at_a_quote() {
    assert_eq!(
        lex("$a'b'"),
        Ok(vec![Token::Word(vec![WordPart::ParamSubst("a".to_string()), lit("b")])])
    );
    assert_eq!(
        lex("$a\"b\""),
        Ok(vec![Token::Word(vec![WordPart::ParamSubst("a".to_string()), lit("b")])])
    );
}

#[test]
fn braced_parameter() {
    assert_eq!(lex("${x}"), Ok(vec![Token::Word(vec![WordPart::ParamSubst("x".to_string())])]));
    assert_eq!(
        lex("a${x}b"),
        Ok(vec![Token::Word(vec![lit("a"), WordPart::ParamSubst("x".to_string()), lit("b")])])
    );
    assert_eq!(
        lex("${a{b}c}"),
        Ok(vec![Token::Word(vec![WordPart::ParamSubst("a{b}c".to_string())])])
    );
}

#[test]
fn command_substitution() {
    assert_eq!(
        lex("$(ls -l)"),
        Ok(vec![Token::Word(vec![WordPart::CmdSubst("ls -l".to_string())])])
    );
    assert_eq!(
        lex("x$(a (b) c)y"),
        Ok(vec![Token::Word(vec![
            lit("x"),
            WordPart::CmdSubst("a (b) c".to_string()),
            lit("y"),
        ])])
    );
}

#[test]
fn substitution_in_double_quotes() {
    assert_eq!(
        lex("\"a $(b c) d\""),
        Ok(vec![Token::Word(vec![lit("a "), WordPart::CmdSubst("b c".to_string()), lit(" d")])])
    );
    assert_eq!(
        lex("\"${x}|\""),
        Ok(vec![Token::Word(vec![WordPart::ParamSubst("x".to_string()), lit("|")])])
    );
}

#[test]
fn empty_double_quotes() {
    assert_eq!(lex("\"\""), Ok(vec![]));
    assert_eq!(lex("\"\" x"), Ok(vec![Token::Word(vec![]), word("x")]));
}

#[test]
fn unterminated_single_quote() {
    assert_eq!(lex("echo 'abc"), Err(LexingError::UnfinishedQuote));
    assert_eq!(lex("'"), Err(LexingError::UnfinishedQuote));
    assert_eq!(lex("a b 'c d | e"), Err(LexingError::UnfinishedQuote));
}

#[test]
fn unterminated_double_quote() {
    assert_eq!(lex("echo \"abc"), Err(LexingError::UnfinishedQuote));
    assert_eq!(lex("\"a 'b'"), Err(LexingError::UnfinishedQuote));
}

#[test]
fn unterminated_command_substitution() {
    assert_eq!(lex("$(ls"), Err(LexingError::UnfinishedCmdSubst));
    assert_eq!(lex("a$(b (c)"), Err(LexingError::UnfinishedCmdSubst));
    assert_eq!(lex("\"$(x\""), Err(LexingError::UnfinishedCmdSubst));
}

#[test]
fn unterminated_parameter_substitution() {
    assert_eq!(lex("${x"), Err(LexingError::UnfinishedParamSubst));
    assert_eq!(lex("a${b{c}"), Err(LexingError::UnfinishedParamSubst));
    assert_eq!(lex("\"${x\""), Err(LexingError::UnfinishedParamSubst));
}

#[test]
fn unicode_letter_starts_a_name() {
    assert_eq!(
        lex("$été"),
        Ok(vec![Token::Word(vec![WordPart::ParamSubst("été".to_string())])])
    );
}

#[test]
fn word_part_of_pending_text() {
    assert_eq!(word_part_of("$ab".to_string(), true), WordPart::ParamSubst("ab".to_string()));
    assert_eq!(word_part_of("$ab".to_string(), false), lit("$ab"));
    assert_eq!(word_part_of("ab".to_string(), true), lit("ab"));
    assert_eq!(word_part_of("$".to_string(), true), lit("$"));
}
