//! Syntax analysis: from tokens to a tree of pipelines and commands.
//!
//! The grammar is defined twice. [`parse`] is its mathematical definition, a
//! function from a sequence of tokens to a tree or an error.
//! [`construct_ast`] is the executable parser, proved to compute [`parse`].
use crate::lexer::{clone_parts, extend_parts, Token, TokenView, WordPart, WordPartView};
use crate::parser_laws::{lemma_parse_builds_sound_trees, tree_is_sound};
use vstd::prelude::*;

verus! {

/// A shell word: plain text, or a sequence of parts that holds a
/// substitution or was put together from several tokens.
#[derive(Debug, PartialEq)]
pub enum Word {
    Literal(String),
    Compound(Vec<WordPart>),
}

/// The mathematical value of a [`Word`].
pub enum WordView {
    Literal(Seq<char>),
    Compound(Seq<WordPartView>),
}

impl DeepView for Word {
    type V = WordView;

    open spec fn deep_view(&self) -> WordView {
        match self {
            Word::Literal(s) => WordView::Literal(s@),
            Word::Compound(parts) => WordView::Compound(parts.deep_view()),
        }
    }
}

impl Clone for Word {
    /// A copy with the same text and parts.
    fn clone(&self) -> (copy: Word)
        ensures
            copy.deep_view() == self.deep_view(),
    {
        match self {
            Word::Literal(s) => Word::Literal(s.clone()),
            Word::Compound(parts) => Word::Compound(clone_parts(parts)),
        }
    }
}

/// What a redirection does.
#[derive(Debug, Clone, Copy, PartialEq, Eq)]
pub enum RedirectKind {
    /// `<`: standard input is read from a file.
    Input,
    /// `>`: standard output replaces the contents of a file.
    Output,
    /// `>>`: standard output is added to the end of a file.
    Append,
}

/// The form of a substitution.
#[derive(Debug, Clone, Copy, PartialEq, Eq)]
pub enum SubstKind {
    /// `$(...)`
    Command,
    /// `${...}`
    Parameter,
}

/// A node of the syntax tree.
#[derive(Debug)]
#[allow(inconsistent_fields)]
pub enum AstNode {
    /// Commands joined by `|`, in the order in which they run.
    Pipeline(Vec<AstNode>),
    /// A simple command: the command name and its arguments, the
    /// assignments that stand before it, and its redirections.
    Command { argv: Vec<Word>, assignments: Vec<AstNode>, redirects: Vec<AstNode> },
    /// An assignment `name=value`; the value is absent in `name=`.
    Assignment { name: String, value: Option<Word> },
    /// A redirection of input or output to a file.
    Redirect { kind: RedirectKind, target: Word },
    /// A substitution whose content is itself a tree.
    Substitution { kind: SubstKind, content: Box<AstNode> },
}

/// The mathematical value of an [`AstNode`].
#[allow(inconsistent_fields)]
pub enum AstView {
    Pipeline(Seq<AstView>),
    Command { argv: Seq<WordView>, assignments: Seq<AstView>, redirects: Seq<AstView> },
    Assignment { name: Seq<char>, value: Option<WordView> },
    Redirect { kind: RedirectKind, target: WordView },
    Substitution { kind: SubstKind, content: Box<AstView> },
}

/// The values of a sequence of nodes, one for one.
pub open spec fn ast_views(nodes: Seq<AstNode>) -> Seq<AstView>
    decreases nodes, 0nat,
{
    Seq::new(
        nodes.len(),
        |i: int|
            if 0 <= i < nodes.len() {
                ast_view(nodes[i])
            } else {
                AstView::Pipeline(Seq::empty())
            },
    )
}

/// The value of a node.
pub open spec fn ast_view(node: AstNode) -> AstView
    decreases node, 1nat,
{
    match node {
        AstNode::Pipeline(commands) => AstView::Pipeline(ast_views(commands@)),
        AstNode::Command { argv, assignments, redirects } => AstView::Command {
            argv: argv.deep_view(),
            assignments: ast_views(assignments@),
            redirects: ast_views(redirects@),
        },
        AstNode::Assignment { name, value } => AstView::Assignment {
            name: name@,
            value: value.deep_view(),
        },
        AstNode::Redirect { kind, target } => AstView::Redirect {
            kind,
            target: target.deep_view(),
        },
        AstNode::Substitution { kind, content } => AstView::Substitution {
            kind,
            content: Box::new(ast_view(*content)),
        },
    }
}

impl DeepView for AstNode {
    type V = AstView;

    open spec fn deep_view(&self) -> AstView {
        ast_view(*self)
    }
}

/// Why a sequence of tokens is no command line.
#[derive(Debug)]
pub enum ParsingError {
    /// A token stands where the grammar has no place for it.
    UnexpectedToken(Token),
    /// The tokens end in the middle of a construct.
    UnexpectedEnd,
    /// A word was required and none was found.
    ExpectedWord,
    /// The name of an assignment is empty.
    ExpectedAssignmentName,
    /// The target of an assignment is not a plain name.
    InvalidAssignment,
    /// A command holds no word, no assignment and no redirection.
    EmptyPipeline,
    /// A word holds a substitution where none is supported.
    UnsupportedSubstitution,
}

/// The mathematical value of a [`ParsingError`].
pub enum ParsingErrorView {
    UnexpectedToken(TokenView),
    UnexpectedEnd,
    ExpectedWord,
    ExpectedAssignmentName,
    InvalidAssignment,
    EmptyPipeline,
    UnsupportedSubstitution,
}

impl DeepView for ParsingError {
    type V = ParsingErrorView;

    open spec fn deep_view(&self) -> ParsingErrorView {
        match self {
            ParsingError::UnexpectedToken(token) => ParsingErrorView::UnexpectedToken(
                token.deep_view(),
            ),
            ParsingError::UnexpectedEnd => ParsingErrorView::UnexpectedEnd,
            ParsingError::ExpectedWord => ParsingErrorView::ExpectedWord,
            ParsingError::ExpectedAssignmentName => ParsingErrorView::ExpectedAssignmentName,
            ParsingError::InvalidAssignment => ParsingErrorView::InvalidAssignment,
            ParsingError::EmptyPipeline => ParsingErrorView::EmptyPipeline,
            ParsingError::UnsupportedSubstitution => ParsingErrorView::UnsupportedSubstitution,
        }
    }
}

// ---------------------------------------------------------------------------
// The grammar, as mathematics
// ---------------------------------------------------------------------------

/// What a production yields: a value and the position after it, or an error.
pub type Parsed<T> = Result<(T, int), ParsingErrorView>;

/// The token at `pos`, if there is one.
pub open spec fn token_at(ts: Seq<TokenView>, pos: int) -> Option<TokenView> {
    if 0 <= pos < ts.len() {
        Some(ts[pos])
    } else {
        None
    }
}

/// The word that a sequence of parts stands for: a single literal part is
/// the literal itself, no part at all is the empty literal.
pub open spec fn word_of_parts(parts: Seq<WordPartView>) -> WordView {
    if parts.len() == 0 {
        WordView::Literal(Seq::empty())
    } else if parts.len() == 1 && parts[0] is Literal {
        WordView::Literal(parts[0]->Literal_0)
    } else {
        WordView::Compound(parts)
    }
}

/// An ASCII letter.
pub open spec fn is_ascii_letter(c: char) -> bool {
    ('a' <= c && c <= 'z') || ('A' <= c && c <= 'Z')
}

/// Whether the parts of a word are a single literal that begins with an
/// ASCII letter: only such a word can be the name of an assignment.
pub open spec fn starts_like_name(parts: Seq<WordPartView>) -> bool {
    &&& parts.len() == 1
    &&& parts[0] matches WordPartView::Literal(text)
    &&& text.len() > 0
    &&& is_ascii_letter(text[0])
}

/// `word := Word | '/'`
pub open spec fn parse_word(ts: Seq<TokenView>, pos: int) -> Parsed<WordView> {
    match token_at(ts, pos) {
        Some(TokenView::Word(parts)) => Ok((word_of_parts(parts), pos + 1)),
        Some(TokenView::Slash) => Ok((WordView::Literal(seq!['/']), pos + 1)),
        Some(token) => Err(ParsingErrorView::UnexpectedToken(token)),
        None => Err(ParsingErrorView::UnexpectedEnd),
    }
}

/// The parts of a path or of a `name=value` argument that begins at `pos`,
/// after the parts `parts` that were already read: words and slashes are
/// gathered until another token stands there; an `=` joins the word after
/// it, if there is one, and ends the argument.
pub open spec fn gather_parts(ts: Seq<TokenView>, pos: int, parts: Seq<WordPartView>) -> Parsed<
    Seq<WordPartView>,
>
    decreases ts.len() - pos,
{
    match token_at(ts, pos) {
        Some(TokenView::Word(more)) => gather_parts(ts, pos + 1, parts + more),
        Some(TokenView::Slash) => gather_parts(
            ts,
            pos + 1,
            parts.push(WordPartView::Literal(seq!['/'])),
        ),
        Some(TokenView::Equal) => {
            if parts.len() == 0 {
                Err(ParsingErrorView::UnexpectedToken(TokenView::Equal))
            } else {
                let joined = parts.push(WordPartView::Literal(seq!['=']));
                match token_at(ts, pos + 1) {
                    Some(TokenView::Word(value)) => Ok((joined + value, pos + 2)),
                    _ => Ok((joined, pos + 1)),
                }
            }
        },
        _ => Ok((parts, pos)),
    }
}

/// `path := (Word | '/')+ ('=' Word?)?`, as one word.
pub open spec fn parse_path(ts: Seq<TokenView>, pos: int) -> Parsed<WordView> {
    match gather_parts(ts, pos, Seq::empty()) {
        Err(e) => Err(e),
        Ok((parts, next)) => if parts.len() == 0 {
            Err(ParsingErrorView::ExpectedWord)
        } else {
            Ok((word_of_parts(parts), next))
        },
    }
}

/// `assignment := Word '=' Word?`
pub open spec fn parse_assignment(ts: Seq<TokenView>, pos: int) -> Parsed<AstView> {
    match token_at(ts, pos) {
        None => Err(ParsingErrorView::UnexpectedEnd),
        Some(TokenView::Word(parts)) => match word_of_parts(parts) {
            WordView::Compound(_) => Err(ParsingErrorView::InvalidAssignment),
            WordView::Literal(name) => if name.len() == 0 {
                Err(ParsingErrorView::ExpectedAssignmentName)
            } else {
                match token_at(ts, pos + 1) {
                    None => Err(ParsingErrorView::UnexpectedEnd),
                    Some(TokenView::Equal) => match token_at(ts, pos + 2) {
                        Some(TokenView::Word(value)) => Ok(
                            (
                                AstView::Assignment {
                                    name,
                                    value: Some(word_of_parts(value)),
                                },
                                pos + 3,
                            ),
                        ),
                        Some(TokenView::PipeOp) | None => Ok(
                            (AstView::Assignment { name, value: None }, pos + 2),
                        ),
                        Some(token) => Err(ParsingErrorView::UnexpectedToken(token)),
                    },
                    Some(token) => Err(ParsingErrorView::UnexpectedToken(token)),
                }
            },
        },
        Some(token) => Err(ParsingErrorView::UnexpectedToken(token)),
    }
}

/// `redirect := ('<' | '>') word`
pub open spec fn parse_redirect(ts: Seq<TokenView>, pos: int) -> Parsed<AstView> {
    match token_at(ts, pos) {
        None => Err(ParsingErrorView::UnexpectedEnd),
        Some(TokenView::RedirectLeft) => match parse_word(ts, pos + 1) {
            Err(e) => Err(e),
            Ok((target, next)) => Ok(
                (AstView::Redirect { kind: RedirectKind::Input, target }, next),
            ),
        },
        Some(TokenView::RedirectRight) => match parse_word(ts, pos + 1) {
            Err(e) => Err(e),
            Ok((target, next)) => Ok(
                (AstView::Redirect { kind: RedirectKind::Output, target }, next),
            ),
        },
        Some(token) => Err(ParsingErrorView::UnexpectedToken(token)),
    }
}

/// `'>' '>' word`, or a single redirection.
pub open spec fn parse_redirection(ts: Seq<TokenView>, pos: int) -> Parsed<AstView> {
    if token_at(ts, pos) == Some(TokenView::RedirectRight) && token_at(ts, pos + 1) == Some(
        TokenView::RedirectRight,
    ) {
        match parse_word(ts, pos + 2) {
            Err(e) => Err(e),
            Ok((target, next)) => Ok(
                (AstView::Redirect { kind: RedirectKind::Append, target }, next),
            ),
        }
    } else {
        parse_redirect(ts, pos)
    }
}

/// What a command has gathered so far.
pub struct CommandParts {
    pub argv: Seq<WordView>,
    pub assignments: Seq<AstView>,
    pub redirects: Seq<AstView>,
}

/// A command that has gathered nothing.
pub open spec fn no_parts() -> CommandParts {
    CommandParts { argv: Seq::empty(), assignments: Seq::empty(), redirects: Seq::empty() }
}

/// The next element of a command, which begins at `pos` with a word, a
/// slash or a redirection sign, added to what the command has gathered.
///
/// A word before `=` is the name of an assignment only while the command
/// has no argument yet and the word begins like a name; in every other
/// case a word before `=` or `/` begins a path.
pub open spec fn parse_element(ts: Seq<TokenView>, pos: int, sofar: CommandParts) -> Parsed<
    CommandParts,
> {
    match token_at(ts, pos) {
        Some(TokenView::Word(parts)) => {
            let before_equal = token_at(ts, pos + 1) == Some(TokenView::Equal);
            let before_slash = token_at(ts, pos + 1) == Some(TokenView::Slash);
            if sofar.argv.len() == 0 && before_equal && starts_like_name(parts) {
                match parse_assignment(ts, pos) {
                    Err(e) => Err(e),
                    Ok((node, next)) => Ok(
                        (CommandParts { assignments: sofar.assignments.push(node), ..sofar }, next),
                    ),
                }
            } else if before_equal || before_slash {
                match parse_path(ts, pos) {
                    Err(e) => Err(e),
                    Ok((word, next)) => Ok(
                        (CommandParts { argv: sofar.argv.push(word), ..sofar }, next),
                    ),
                }
            } else {
                Ok((CommandParts { argv: sofar.argv.push(word_of_parts(parts)), ..sofar }, pos + 1))
            }
        },
        Some(TokenView::Slash) => match parse_path(ts, pos) {
            Err(e) => Err(e),
            Ok((word, next)) => Ok((CommandParts { argv: sofar.argv.push(word), ..sofar }, next)),
        },
        Some(TokenView::RedirectLeft) | Some(TokenView::RedirectRight) => match parse_redirection(
            ts,
            pos,
        ) {
            Err(e) => Err(e),
            Ok((node, next)) => Ok(
                (CommandParts { redirects: sofar.redirects.push(node), ..sofar }, next),
            ),
        },
        Some(token) => Err(ParsingErrorView::UnexpectedToken(token)),
        None => Err(ParsingErrorView::UnexpectedEnd),
    }
}

/// The elements of a command from `pos` on, up to a `|` or the end, added
/// to what the command has gathered.
pub open spec fn parse_elements(ts: Seq<TokenView>, pos: int, sofar: CommandParts) -> Parsed<
    CommandParts,
>
    decreases ts.len() - pos,
{
    match token_at(ts, pos) {
        None | Some(TokenView::PipeOp) => Ok((sofar, pos)),
        Some(_) => match parse_element(ts, pos, sofar) {
            Err(e) => Err(e),
            Ok((more, next)) => if pos < next <= ts.len() {
                parse_elements(ts, next, more)
            } else {
                Ok((more, next))
            },
        },
    }
}

/// `command := (assignment | redirect | word | path)+`
pub open spec fn parse_command(ts: Seq<TokenView>, pos: int) -> Parsed<AstView> {
    match parse_elements(ts, pos, no_parts()) {
        Err(e) => Err(e),
        Ok((parts, next)) => if parts.argv.len() == 0 && parts.assignments.len() == 0
            && parts.redirects.len() == 0 {
            Err(ParsingErrorView::EmptyPipeline)
        } else {
            Ok(
                (
                    AstView::Command {
                        argv: parts.argv,
                        assignments: parts.assignments,
                        redirects: parts.redirects,
                    },
                    next,
                ),
            )
        },
    }
}

/// The commands of a pipeline after the first: `('|' command)*`, added to
/// the commands `sofar`.
pub open spec fn parse_stages(ts: Seq<TokenView>, pos: int, sofar: Seq<AstView>) -> Parsed<
    Seq<AstView>,
>
    decreases ts.len() - pos,
{
    if token_at(ts, pos) == Some(TokenView::PipeOp) {
        match parse_command(ts, pos + 1) {
            Err(e) => Err(e),
            Ok((command, next)) => if pos < next <= ts.len() {
                parse_stages(ts, next, sofar.push(command))
            } else {
                Ok((sofar.push(command), next))
            },
        }
    } else {
        Ok((sofar, pos))
    }
}

/// `pipeline := command ('|' command)*`; a pipeline of one command is that
/// command.
pub open spec fn parse_pipeline(ts: Seq<TokenView>, pos: int) -> Parsed<AstView> {
    match parse_command(ts, pos) {
        Err(e) => Err(e),
        Ok((first, after_first)) => match parse_stages(ts, after_first, seq![first]) {
            Err(e) => Err(e),
            Ok((commands, next)) => if commands.len() == 1 {
                Ok((commands[0], next))
            } else {
                Ok((AstView::Pipeline(commands), next))
            },
        },
    }
}

/// The tree of a whole sequence of tokens: a pipeline with nothing after it.
pub open spec fn parse(ts: Seq<TokenView>) -> Result<AstView, ParsingErrorView> {
    match parse_pipeline(ts, 0) {
        Err(e) => Err(e),
        Ok((node, next)) => match token_at(ts, next) {
            Some(token) => Err(ParsingErrorView::UnexpectedToken(token)),
            None => Ok(node),
        },
    }
}

/// Whether no part of a word is a substitution.
pub open spec fn only_literals(parts: Seq<WordPartView>) -> bool {
    forall|i: int| 0 <= i < parts.len() ==> (#[trigger] parts[i]) is Literal
}

// ---------------------------------------------------------------------------
// The grammar, as a program
// ---------------------------------------------------------------------------

/// A string of one character.
fn single_char(c: char) -> (s: String)
    ensures
        s@ == seq![c],
{
    let mut s = String::new();
    crate::text::push_char(&mut s, c);
    assert(s@ =~= seq![c]);
    s
}

/// Appends a word; the words before it stay as they are.
fn add_word(words: &mut Vec<Word>, word: Word)
    ensures
        final(words)@ == old(words)@.push(word),
        final(words).deep_view() == old(words).deep_view().push(word.deep_view()),
{
    words.push(word);
    assert(words.deep_view() =~= old(words).deep_view().push(word.deep_view()));
}

/// Appends a node; the nodes before it stay as they are.
fn add_node(nodes: &mut Vec<AstNode>, node: AstNode)
    ensures
        final(nodes)@ == old(nodes)@.push(node),
        ast_views(final(nodes)@) == ast_views(old(nodes)@).push(node.deep_view()),
{
    nodes.push(node);
    assert(ast_views(nodes@) =~= ast_views(old(nodes)@).push(node.deep_view()));
}

struct AstBuilder {
    tokens: Vec<Token>,
    pos: usize,
}

impl AstBuilder {
    /// The tokens, as mathematics.
    spec fn ts(&self) -> Seq<TokenView> {
        self.tokens.deep_view()
    }

    spec fn wf(&self) -> bool {
        self.pos <= self.tokens@.len()
    }

    fn from(tokens: Vec<Token>) -> (builder: AstBuilder)
        ensures
            builder.tokens == tokens,
            builder.pos == 0,
            builder.wf(),
    {
        AstBuilder { tokens, pos: 0 }
    }

    fn build_ast(self) -> (r: Result<AstNode, ParsingError>)
        requires
            self.pos == 0,
        ensures
            match r {
                Ok(node) => parse(self.ts()) == Ok::<AstView, ParsingErrorView>(node.deep_view()),
                Err(e) => parse(self.ts()) == Err::<AstView, ParsingErrorView>(e.deep_view()),
            },
    {
        let mut builder = self;
        let ast = builder.parse_pipeline()?;
        if builder.pos < builder.tokens.len() {
            return Err(ParsingError::UnexpectedToken(builder.tokens[builder.pos].clone()));
        }
        Ok(ast)
    }

    fn peek(&self) -> (r: Option<&Token>)
        ensures
            r.deep_view() == token_at(self.ts(), self.pos as int),
            r matches Some(token) ==> self.pos < self.tokens@.len() && *token
                == self.tokens@[self.pos as int],
    {
        if self.pos < self.tokens.len() {
            Some(&self.tokens[self.pos])
        } else {
            None
        }
    }

    /// The token `n` places after the current one.
    fn peek_n(&self, n: usize) -> (r: Option<&Token>)
        requires
            self.wf(),
        ensures
            r.deep_view() == token_at(self.ts(), self.pos + n),
            r matches Some(token) ==> self.pos + n < self.tokens@.len() && *token
                == self.tokens@[self.pos + n],
    {
        if n < self.tokens.len() - self.pos {
            Some(&self.tokens[self.pos + n])
        } else {
            None
        }
    }

    fn consume(&mut self) -> (r: Option<Token>)
        requires
            old(self).wf(),
        ensures
            final(self).tokens == old(self).tokens,
            final(self).wf(),
            r.deep_view() == token_at(old(self).ts(), old(self).pos as int),
            final(self).pos == if r is Some {
                old(self).pos + 1
            } else {
                old(self).pos as int
            },
    {
        if self.pos < self.tokens.len() {
            let token = self.tokens[self.pos].clone();
            self.pos += 1;
            Some(token)
        } else {
            None
        }
    }

    /// Consumes the next token, which has to be of the kind of `expected`.
    fn expect(&mut self, expected: Token) -> (r: Result<(), ParsingError>)
        requires
            old(self).wf(),
            !(expected is Word),
        ensures
            final(self).tokens == old(self).tokens,
            final(self).wf(),
            match r {
                Ok(_) => token_at(old(self).ts(), old(self).pos as int) == Some(
                    expected.deep_view(),
                ) && final(self).pos == old(self).pos + 1,
                Err(e) => match token_at(old(self).ts(), old(self).pos as int) {
                    Some(token) => token != expected.deep_view() && e.deep_view()
                        == ParsingErrorView::UnexpectedToken(token),
                    None => e.deep_view() == ParsingErrorView::UnexpectedEnd,
                },
            },
    {
        match self.consume() {
            Some(token) => {
                let same = match (&token, &expected) {
                    (Token::PipeOp, Token::PipeOp) => true,
                    (Token::Equal, Token::Equal) => true,
                    (Token::Slash, Token::Slash) => true,
                    (Token::RedirectLeft, Token::RedirectLeft) => true,
                    (Token::RedirectRight, Token::RedirectRight) => true,
                    _ => false,
                };
                if same {
                    Ok(())
                } else {
                    Err(ParsingError::UnexpectedToken(token))
                }
            },
            None => Err(ParsingError::UnexpectedEnd),
        }
    }

    /// The word that a sequence of parts stands for.
    fn word_parts_to_ast_word(parts: Vec<WordPart>) -> (r: Result<Word, ParsingError>)
        ensures
            r matches Ok(word) && word.deep_view() == word_of_parts(parts.deep_view()),
    {
        if parts.len() == 0 {
            let word = Word::Literal(String::new());
            return Ok(word);
        }
        if parts.len() == 1 {
            if let WordPart::Literal(s) = &parts[0] {
                return Ok(Word::Literal(s.clone()));
            }
        }
        Ok(Word::Compound(parts))
    }

    /// Parses one word: a word token, or a slash that stands alone.
    fn parse_word(&mut self) -> (r: Result<Word, ParsingError>)
        requires
            old(self).wf(),
        ensures
            final(self).tokens == old(self).tokens,
            final(self).wf(),
            match r {
                Ok(word) => parse_word(old(self).ts(), old(self).pos as int) == Ok::<
                    (WordView, int),
                    ParsingErrorView,
                >((word.deep_view(), final(self).pos as int)),
                Err(e) => parse_word(old(self).ts(), old(self).pos as int) == Err::<
                    (WordView, int),
                    ParsingErrorView,
                >(e.deep_view()),
            },
    {
        match self.consume() {
            Some(Token::Word(parts)) => Self::word_parts_to_ast_word(parts),
            Some(Token::Slash) => Ok(Word::Literal(single_char('/'))),
            Some(token) => Err(ParsingError::UnexpectedToken(token)),
            None => Err(ParsingError::UnexpectedEnd),
        }
    }

    /// Parses a path, or a word joined to what follows it by `=`, as one word.
    fn parse_word_or_path_with_equal(&mut self) -> (r: Result<Word, ParsingError>)
        requires
            old(self).wf(),
        ensures
            final(self).tokens == old(self).tokens,
            final(self).wf(),
            match r {
                Ok(word) => old(self).pos < final(self).pos && parse_path(
                    old(self).ts(),
                    old(self).pos as int,
                ) == Ok::<(WordView, int), ParsingErrorView>(
                    (word.deep_view(), final(self).pos as int),
                ),
                Err(e) => parse_path(old(self).ts(), old(self).pos as int) == Err::<
                    (WordView, int),
                    ParsingErrorView,
                >(e.deep_view()),
            },
    {
        let mut path_parts: Vec<WordPart> = Vec::new();
        assert(path_parts.deep_view() =~= Seq::<WordPartView>::empty());
        loop
            invariant_except_break
                gather_parts(self.ts(), self.pos as int, path_parts.deep_view()) == gather_parts(
                    self.ts(),
                    old(self).pos as int,
                    Seq::empty(),
                ),
            invariant
                self.wf(),
                self.tokens == old(self).tokens,
                old(self).pos <= self.pos,
                path_parts@.len() > 0 ==> old(self).pos < self.pos,
            ensures
                gather_parts(self.ts(), old(self).pos as int, Seq::empty()) == Ok::<
                    (Seq<WordPartView>, int),
                    ParsingErrorView,
                >((path_parts.deep_view(), self.pos as int)),
            decreases self.tokens@.len() - self.pos,
        {
            if self.pos >= self.tokens.len() {
                break ;
            }
            match &self.tokens[self.pos] {
                Token::Word(parts) => {
                    extend_parts(&mut path_parts, parts);
                    self.pos += 1;
                },
                Token::Slash => {
                    let ghost before = path_parts.deep_view();
                    path_parts.push(WordPart::Literal(single_char('/')));
                    assert(path_parts.deep_view() =~= before.push(
                        WordPartView::Literal(seq!['/']),
                    ));
                    self.pos += 1;
                },
                Token::Equal => {
                    if path_parts.len() == 0 {
                        return Err(ParsingError::UnexpectedToken(Token::Equal));
                    }
                    self.pos += 1;
                    let ghost before = path_parts.deep_view();
                    path_parts.push(WordPart::Literal(single_char('=')));
                    assert(path_parts.deep_view() =~= before.push(
                        WordPartView::Literal(seq!['=']),
                    ));
                    if self.pos < self.tokens.len() {
                        if let Token::Word(value) = &self.tokens[self.pos] {
                            extend_parts(&mut path_parts, value);
                            self.pos += 1;
                        }
                    }
                    break ;
                },
                _ => {
                    break ;
                },
            }
        }
        if path_parts.len() == 0 {
            return Err(ParsingError::ExpectedWord);
        }
        Self::word_parts_to_ast_word(path_parts)
    }

    /// Parses a path: the same as [`Self::parse_word_or_path_with_equal`].
    fn parse_path(&mut self) -> (r: Result<Word, ParsingError>)
        requires
            old(self).wf(),
        ensures
            final(self).tokens == old(self).tokens,
            final(self).wf(),
            match r {
                Ok(word) => old(self).pos < final(self).pos && parse_path(
                    old(self).ts(),
                    old(self).pos as int,
                ) == Ok::<(WordView, int), ParsingErrorView>(
                    (word.deep_view(), final(self).pos as int),
                ),
                Err(e) => parse_path(old(self).ts(), old(self).pos as int) == Err::<
                    (WordView, int),
                    ParsingErrorView,
                >(e.deep_view()),
            },
    {
        self.parse_word_or_path_with_equal()
    }

    /// Parses an assignment: a name, `=`, and a value if one follows.
    fn parse_assignment(&mut self) -> (r: Result<AstNode, ParsingError>)
        requires
            old(self).wf(),
        ensures
            final(self).tokens == old(self).tokens,
            final(self).wf(),
            match r {
                Ok(node) => old(self).pos < final(self).pos && parse_assignment(
                    old(self).ts(),
                    old(self).pos as int,
                ) == Ok::<(AstView, int), ParsingErrorView>(
                    (node.deep_view(), final(self).pos as int),
                ),
                Err(e) => parse_assignment(old(self).ts(), old(self).pos as int) == Err::<
                    (AstView, int),
                    ParsingErrorView,
                >(e.deep_view()),
            },
    {
        let name_word = match self.consume() {
            Some(Token::Word(parts)) => Self::word_parts_to_ast_word(parts)?,
            Some(token) => {
                return Err(ParsingError::UnexpectedToken(token));
            },
            None => {
                return Err(ParsingError::UnexpectedEnd);
            },
        };
        let name = match name_word {
            Word::Literal(s) => s,
            Word::Compound(_) => {
                return Err(ParsingError::InvalidAssignment);
            },
        };
        if name.as_str().is_empty() {
            return Err(ParsingError::ExpectedAssignmentName);
        }
        self.expect(Token::Equal)?;
        let follows_word = match self.peek() {
            Some(Token::Word(_)) => true,
            Some(Token::PipeOp) | None => false,
            Some(token) => {
                return Err(ParsingError::UnexpectedToken(token.clone()));
            },
        };
        let value = if follows_word {
            Some(self.parse_word()?)
        } else {
            None
        };
        Ok(AstNode::Assignment { name, value })
    }

    /// Parses a redirection: `<` or `>` and the word that names the target.
    fn parse_redirect(&mut self) -> (r: Result<AstNode, ParsingError>)
        requires
            old(self).wf(),
        ensures
            final(self).tokens == old(self).tokens,
            final(self).wf(),
            match r {
                Ok(node) => old(self).pos < final(self).pos && parse_redirect(
                    old(self).ts(),
                    old(self).pos as int,
                ) == Ok::<(AstView, int), ParsingErrorView>(
                    (node.deep_view(), final(self).pos as int),
                ),
                Err(e) => parse_redirect(old(self).ts(), old(self).pos as int) == Err::<
                    (AstView, int),
                    ParsingErrorView,
                >(e.deep_view()),
            },
    {
        let kind = match self.consume() {
            Some(Token::RedirectLeft) => RedirectKind::Input,
            Some(Token::RedirectRight) => RedirectKind::Output,
            Some(token) => {
                return Err(ParsingError::UnexpectedToken(token));
            },
            None => {
                return Err(ParsingError::UnexpectedEnd);
            },
        };
        let target = self.parse_word()?;
        Ok(AstNode::Redirect { kind, target })
    }

    /// Parses a command: its assignments, words and redirections, up to a
    /// `|` or the end of the tokens.
    fn parse_command(&mut self) -> (r: Result<AstNode, ParsingError>)
        requires
            old(self).wf(),
        ensures
            final(self).tokens == old(self).tokens,
            final(self).wf(),
            match r {
                Ok(node) => old(self).pos <= final(self).pos && parse_command(
                    old(self).ts(),
                    old(self).pos as int,
                ) == Ok::<(AstView, int), ParsingErrorView>(
                    (node.deep_view(), final(self).pos as int),
                ),
                Err(e) => parse_command(old(self).ts(), old(self).pos as int) == Err::<
                    (AstView, int),
                    ParsingErrorView,
                >(e.deep_view()),
            },
    {
        let mut assignments: Vec<AstNode> = Vec::new();
        let mut argv: Vec<Word> = Vec::new();
        let mut redirects: Vec<AstNode> = Vec::new();
        assert(argv.deep_view() =~= Seq::<WordView>::empty());
        assert(ast_views(assignments@) =~= Seq::<AstView>::empty());
        assert(ast_views(redirects@) =~= Seq::<AstView>::empty());
        loop
            invariant_except_break
                parse_elements(
                    self.ts(),
                    self.pos as int,
                    CommandParts {
                        argv: argv.deep_view(),
                        assignments: ast_views(assignments@),
                        redirects: ast_views(redirects@),
                    },
                ) == parse_elements(self.ts(), old(self).pos as int, no_parts()),
            invariant
                self.wf(),
                self.tokens == old(self).tokens,
                old(self).pos <= self.pos,
            ensures
                parse_elements(self.ts(), old(self).pos as int, no_parts()) == Ok::<
                    (CommandParts, int),
                    ParsingErrorView,
                >(
                    (
                        CommandParts {
                            argv: argv.deep_view(),
                            assignments: ast_views(assignments@),
                            redirects: ast_views(redirects@),
                        },
                        self.pos as int,
                    ),
                ),
            decreases self.tokens@.len() - self.pos,
        {
            let before_equal = match self.peek_n(1) {
                Some(Token::Equal) => true,
                _ => false,
            };
            let before_slash = match self.peek_n(1) {
                Some(Token::Slash) => true,
                _ => false,
            };
            let before_append = match self.peek_n(1) {
                Some(Token::RedirectRight) => true,
                _ => false,
            };
            match self.peek() {
                None => {
                    break ;
                },
                Some(Token::PipeOp) => {
                    break ;
                },
                Some(Token::Equal) => {
                    return Err(ParsingError::UnexpectedToken(Token::Equal));
                },
                Some(Token::Word(parts)) => {
                    if argv.len() == 0 && before_equal && Self::is_valid_name_start(parts) {
                        let node = self.parse_assignment()?;
                        add_node(&mut assignments, node);
                    } else if before_slash || before_equal {
                        let word = self.parse_word_or_path_with_equal()?;
                        add_word(&mut argv, word);
                    } else {
                        let word = self.parse_word()?;
                        add_word(&mut argv, word);
                    }
                },
                Some(Token::Slash) => {
                    let word = self.parse_word_or_path_with_equal()?;
                    add_word(&mut argv, word);
                },
                Some(Token::RedirectLeft) => {
                    let node = self.parse_redirect()?;
                    add_node(&mut redirects, node);
                },
                Some(Token::RedirectRight) => {
                    if before_append {
                        let total: usize = self.tokens.len();
                        assert(self.pos + 1 < total);
                        self.pos += 2;
                        let target = self.parse_word()?;
                        add_node(
                            &mut redirects,
                            AstNode::Redirect { kind: RedirectKind::Append, target },
                        );
                    } else {
                        let node = self.parse_redirect()?;
                        add_node(&mut redirects, node);
                    }
                },
            }
        }
        if assignments.len() == 0 && argv.len() == 0 && redirects.len() == 0 {
            return Err(ParsingError::EmptyPipeline);
        }
        Ok(AstNode::Command { argv, assignments, redirects })
    }

    /// Whether the parts of a word are a single literal that begins with an
    /// ASCII letter.
    fn is_valid_name_start(parts: &Vec<WordPart>) -> (r: bool)
        ensures
            r == starts_like_name(parts.deep_view()),
    {
        if parts.len() != 1 {
            return false;
        }
        match &parts[0] {
            WordPart::Literal(text) => {
                if text.as_str().is_empty() {
                    false
                } else {
                    let first = text.as_str().get_char(0);
                    ('a' <= first && first <= 'z') || ('A' <= first && first <= 'Z')
                }
            },
            _ => false,
        }
    }

    /// Parses a pipeline: a command, and the commands that `|` joins to it.
    fn parse_pipeline(&mut self) -> (r: Result<AstNode, ParsingError>)
        requires
            old(self).wf(),
        ensures
            final(self).tokens == old(self).tokens,
            final(self).wf(),
            match r {
                Ok(node) => parse_pipeline(old(self).ts(), old(self).pos as int) == Ok::<
                    (AstView, int),
                    ParsingErrorView,
                >((node.deep_view(), final(self).pos as int)),
                Err(e) => parse_pipeline(old(self).ts(), old(self).pos as int) == Err::<
                    (AstView, int),
                    ParsingErrorView,
                >(e.deep_view()),
            },
    {
        let mut commands: Vec<AstNode> = Vec::new();
        let first = self.parse_command()?;
        let ghost after_first = self.pos as int;
        let ghost first_view = first.deep_view();
        commands.push(first);
        assert(ast_views(commands@) =~= seq![first_view]);
        loop
            invariant_except_break
                parse_stages(self.ts(), self.pos as int, ast_views(commands@)) == parse_stages(
                    self.ts(),
                    after_first,
                    seq![first_view],
                ),
            invariant
                self.wf(),
                self.tokens == old(self).tokens,
                commands@.len() >= 1,
                parse_command(old(self).ts(), old(self).pos as int) == Ok::<
                    (AstView, int),
                    ParsingErrorView,
                >((first_view, after_first)),
            ensures
                parse_stages(self.ts(), after_first, seq![first_view]) == Ok::<
                    (Seq<AstView>, int),
                    ParsingErrorView,
                >((ast_views(commands@), self.pos as int)),
            decreases self.tokens@.len() - self.pos,
        {
            match self.peek() {
                Some(Token::PipeOp) => {},
                _ => {
                    break ;
                },
            }
            let total: usize = self.tokens.len();
            assert(self.pos < total);
            self.pos += 1;
            let command = self.parse_command()?;
            add_node(&mut commands, command);
        }
        if commands.len() == 1 {
            Ok(commands.remove(0))
        } else {
            Ok(AstNode::Pipeline(commands))
        }
    }
}

/// Turns the parts of a word into a word, for a caller that supports no
/// substitution: parts that hold one are refused.
pub fn handle_substitutions_in_word(parts: Vec<WordPart>) -> (r: Result<Word, ParsingError>)
    ensures
        match r {
            Ok(word) => only_literals(parts.deep_view()) && word.deep_view() == word_of_parts(
                parts.deep_view(),
            ),
            Err(e) => !only_literals(parts.deep_view()) && e.deep_view()
                == ParsingErrorView::UnsupportedSubstitution,
        },
{
    let mut i: usize = 0;
    while i < parts.len()
        invariant
            i <= parts@.len(),
            forall|j: int| 0 <= j < i ==> (#[trigger] parts.deep_view()[j]) is Literal,
        decreases parts@.len() - i,
    {
        match &parts[i] {
            WordPart::Literal(_) => {},
            _ => {
                assert(!(parts.deep_view()[i as int] is Literal));
                return Err(ParsingError::UnsupportedSubstitution);
            },
        }
        i += 1;
    }
    AstBuilder::word_parts_to_ast_word(parts)
}

/// Builds the syntax tree of a sequence of tokens.
///
/// The result is what the grammar [`parse`] yields on the tokens: the tree
/// of the pipeline that they spell, or the error of the first place where
/// they spell none. A tree that is returned is well formed: it is a command
/// or a pipeline of two or more commands, no command in it is empty, and
/// no compound word in it is without parts or a single literal.
pub fn construct_ast(tokens: Vec<Token>) -> (r: Result<AstNode, ParsingError>)
    ensures
        match r {
            Ok(node) => parse(tokens.deep_view()) == Ok::<AstView, ParsingErrorView>(
                node.deep_view(),
            ) && tree_is_sound(node.deep_view()) && (node is Command || node is Pipeline),
            Err(e) => parse(tokens.deep_view()) == Err::<AstView, ParsingErrorView>(
                e.deep_view(),
            ),
        },
{
    proof {
        lemma_parse_builds_sound_trees(tokens.deep_view());
    }
    let builder = AstBuilder::from(tokens);
    builder.build_ast()
}

} // verus!
