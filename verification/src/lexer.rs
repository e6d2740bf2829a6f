//! Lexical analysis: a finite-state machine over the characters of one line.
//!
//! The machine is defined twice. [`lex`] is its mathematical definition, a
//! function from a sequence of characters to a sequence of tokens or an error.
//! [`split_into_tokens`] is the executable machine, proved to compute [`lex`].
use crate::lexer_laws::{balanced, lemma_lex_succeeds_iff_balanced};
use crate::text::{char_is_alphabetic, chars_of, is_alphabetic, push_char, take_string};
use vstd::prelude::*;

verus! {

/// One part of a word.
#[derive(Debug, PartialEq, Eq)]
pub enum WordPart {
    /// Text that stands for itself.
    Literal(String),
    /// A command substitution `$(...)`: the text between the parentheses.
    CmdSubst(String),
    /// A parameter substitution `${...}` or `$name`: the text between the
    /// braces, or the name.
    ParamSubst(String),
}

/// The mathematical value of a [`WordPart`].
pub enum WordPartView {
    Literal(Seq<char>),
    CmdSubst(Seq<char>),
    ParamSubst(Seq<char>),
}

impl DeepView for WordPart {
    type V = WordPartView;

    open spec fn deep_view(&self) -> WordPartView {
        match self {
            WordPart::Literal(s) => WordPartView::Literal(s@),
            WordPart::CmdSubst(s) => WordPartView::CmdSubst(s@),
            WordPart::ParamSubst(s) => WordPartView::ParamSubst(s@),
        }
    }
}

/// A token of the input line.
#[derive(Debug, PartialEq, Eq)]
pub enum Token {
    /// A word, made of its parts. Empty double quotes before a blank make a
    /// word without parts.
    Word(Vec<WordPart>),
    /// The pipe operator `|`.
    PipeOp,
    /// The equals sign `=`.
    Equal,
    /// The path separator `/`.
    Slash,
    /// The input redirection sign `<`.
    RedirectLeft,
    /// The output redirection sign `>`.
    RedirectRight,
}

/// The mathematical value of a [`Token`].
pub enum TokenView {
    Word(Seq<WordPartView>),
    PipeOp,
    Equal,
    Slash,
    RedirectLeft,
    RedirectRight,
}

impl DeepView for Token {
    type V = TokenView;

    open spec fn deep_view(&self) -> TokenView {
        match self {
            Token::Word(parts) => TokenView::Word(parts.deep_view()),
            Token::PipeOp => TokenView::PipeOp,
            Token::Equal => TokenView::Equal,
            Token::Slash => TokenView::Slash,
            Token::RedirectLeft => TokenView::RedirectLeft,
            Token::RedirectRight => TokenView::RedirectRight,
        }
    }
}

impl Clone for WordPart {
    /// A copy with the same text.
    fn clone(&self) -> (copy: WordPart)
        ensures
            copy.deep_view() == self.deep_view(),
    {
        match self {
            WordPart::Literal(s) => WordPart::Literal(s.clone()),
            WordPart::CmdSubst(s) => WordPart::CmdSubst(s.clone()),
            WordPart::ParamSubst(s) => WordPart::ParamSubst(s.clone()),
        }
    }
}

/// Appends copies of the parts `more` to `parts`.
pub fn extend_parts(parts: &mut Vec<WordPart>, more: &Vec<WordPart>)
    ensures
        final(parts).deep_view() == old(parts).deep_view() + more.deep_view(),
{
    let mut i: usize = 0;
    while i < more.len()
        invariant
            i <= more@.len(),
            parts.deep_view() == old(parts).deep_view() + more.deep_view().take(i as int),
        decreases more@.len() - i,
    {
        let ghost before = parts.deep_view();
        parts.push(more[i].clone());
        assert(parts.deep_view() =~= before.push(more@[i as int].deep_view()));
        assert(more.deep_view().take(i + 1) =~= more.deep_view().take(i as int).push(
            more@[i as int].deep_view(),
        ));
        i += 1;
    }
    assert(more.deep_view().take(i as int) =~= more.deep_view());
}

/// A copy of a sequence of parts.
pub fn clone_parts(parts: &Vec<WordPart>) -> (copy: Vec<WordPart>)
    ensures
        copy.deep_view() == parts.deep_view(),
{
    let mut copy: Vec<WordPart> = Vec::new();
    assert(copy.deep_view() =~= Seq::<WordPartView>::empty());
    extend_parts(&mut copy, parts);
    assert(Seq::<WordPartView>::empty() + parts.deep_view() =~= parts.deep_view());
    copy
}

impl Clone for Token {
    /// A copy with the same parts.
    fn clone(&self) -> (copy: Token)
        ensures
            copy.deep_view() == self.deep_view(),
    {
        match self {
            Token::Word(parts) => Token::Word(clone_parts(parts)),
            Token::PipeOp => Token::PipeOp,
            Token::Equal => Token::Equal,
            Token::Slash => Token::Slash,
            Token::RedirectLeft => Token::RedirectLeft,
            Token::RedirectRight => Token::RedirectRight,
        }
    }
}

/// What can stop the lexer: a construct that the line opens and never closes.
#[derive(Debug, Clone, Copy, PartialEq, Eq)]
pub enum LexingError {
    /// A single or double quote is not closed.
    UnfinishedQuote,
    /// A command substitution `$(` is not closed.
    UnfinishedCmdSubst,
    /// A parameter substitution `${` is not closed.
    UnfinishedParamSubst,
}

// ---------------------------------------------------------------------------
// The machine, as mathematics
// ---------------------------------------------------------------------------

/// Where the machine is.
pub enum LexMode {
    /// Between words.
    Start,
    /// Inside an unquoted word.
    Word,
    /// Inside single quotes.
    SingleQuote,
    /// Inside double quotes.
    DoubleQuote,
    /// Inside `$(`, with `depth` parentheses open. `quoted` says that the
    /// substitution was opened inside double quotes, to which the machine
    /// returns when the substitution closes.
    CmdSubst { depth: nat, quoted: bool },
    /// Inside `${`, with `depth` braces open.
    ParamSubst { depth: nat, quoted: bool },
}

/// The whole state of the machine.
pub struct LexState {
    pub mode: LexMode,
    /// Characters read and not yet made into a part.
    pub buffer: Seq<char>,
    /// Parts of the word under construction.
    pub word: Seq<WordPartView>,
    /// Tokens emitted so far.
    pub out: Seq<TokenView>,
}

/// A space or a tab: what separates words.
pub open spec fn is_blank(c: char) -> bool {
    c == ' ' || c == '\t'
}

/// The token of an operator character, if `c` is one.
pub open spec fn operator_of(c: char) -> Option<TokenView> {
    if c == '|' {
        Some(TokenView::PipeOp)
    } else if c == '=' {
        Some(TokenView::Equal)
    } else if c == '/' {
        Some(TokenView::Slash)
    } else if c == '<' {
        Some(TokenView::RedirectLeft)
    } else if c == '>' {
        Some(TokenView::RedirectRight)
    } else {
        None
    }
}

/// A character that may begin a parameter name: a letter or an underscore.
pub open spec fn starts_name(c: char) -> bool {
    is_alphabetic(c) || c == '_'
}

/// The part that unquoted pending text stands for: a parameter reference
/// if it is `$` and a name, a literal otherwise.
pub open spec fn part_of_text(text: Seq<char>) -> WordPartView {
    if text.len() > 1 && text[0] == '$' && starts_name(text[1]) {
        WordPartView::ParamSubst(text.skip(1))
    } else {
        WordPartView::Literal(text)
    }
}

/// Ends the pending unquoted text, if there is any.
pub open spec fn flush_text(buffer: Seq<char>, word: Seq<WordPartView>) -> Seq<WordPartView> {
    if buffer.len() == 0 {
        word
    } else {
        word.push(part_of_text(buffer))
    }
}

/// Ends the pending quoted text, if there is any: it is always literal.
pub open spec fn flush_literal(buffer: Seq<char>, word: Seq<WordPartView>) -> Seq<
    WordPartView,
> {
    if buffer.len() == 0 {
        word
    } else {
        word.push(WordPartView::Literal(buffer))
    }
}

/// The mode that a substitution returns to when it closes.
pub open spec fn resume_mode(quoted: bool) -> LexMode {
    if quoted {
        LexMode::DoubleQuote
    } else {
        LexMode::Word
    }
}

/// A step between words: blanks are passed over, an operator is a token,
/// a quote or a substitution opens, and any other character begins a word.
/// The result says whether the step also consumed the character after `c`.
pub open spec fn step_start(st: LexState, c: char, next: Option<char>) -> (LexState, bool) {
    if is_blank(c) {
        (st, false)
    } else if operator_of(c) is Some {
        (LexState { out: st.out.push(operator_of(c)->0), ..st }, false)
    } else if c == '\'' {
        (LexState { mode: LexMode::SingleQuote, ..st }, false)
    } else if c == '"' {
        (LexState { mode: LexMode::DoubleQuote, ..st }, false)
    } else if c == '$' {
        if next == Some('(') {
            (LexState { mode: LexMode::CmdSubst { depth: 1, quoted: false }, ..st }, true)
        } else if next == Some('{') {
            (LexState { mode: LexMode::ParamSubst { depth: 1, quoted: false }, ..st }, true)
        } else {
            (
                LexState {
                    mode: LexMode::Word,
                    buffer: seq!['$'],
                    word: flush_literal(st.buffer, st.word),
                    ..st
                },
                false,
            )
        }
    } else {
        (LexState { mode: LexMode::Word, buffer: st.buffer.push(c), ..st }, false)
    }
}

/// A step inside an unquoted word: a blank ends the word, an operator ends
/// it and is a token, a `$` ends the pending text and begins a
/// substitution or a parameter name, and any other character is added to
/// the pending text. A quote continues the word; pending text goes on into
/// the quotes, unless it is a `$` and a name, which ends at the quote.
pub open spec fn step_word(st: LexState, c: char, next: Option<char>) -> (LexState, bool) {
    let flushed = flush_text(st.buffer, st.word);
    if is_blank(c) {
        (
            LexState {
                mode: LexMode::Start,
                buffer: Seq::empty(),
                word: Seq::empty(),
                out: st.out.push(TokenView::Word(flushed)),
            },
            false,
        )
    } else if operator_of(c) is Some {
        (
            LexState {
                mode: LexMode::Start,
                buffer: Seq::empty(),
                word: Seq::empty(),
                out: if flushed.len() == 0 {
                    st.out.push(operator_of(c)->0)
                } else {
                    st.out.push(TokenView::Word(flushed)).push(operator_of(c)->0)
                },
            },
            false,
        )
    } else if c == '"' || c == '\'' {
        let mode = if c == '"' {
            LexMode::DoubleQuote
        } else {
            LexMode::SingleQuote
        };
        if st.buffer.len() > 0 && st.buffer[0] == '$' {
            (LexState { mode, buffer: Seq::empty(), word: flushed, ..st }, false)
        } else {
            (LexState { mode, ..st }, false)
        }
    } else if c == '$' {
        if next == Some('(') {
            (
                LexState {
                    mode: LexMode::CmdSubst { depth: 1, quoted: false },
                    buffer: Seq::empty(),
                    word: flushed,
                    ..st
                },
                true,
            )
        } else if next == Some('{') {
            (
                LexState {
                    mode: LexMode::ParamSubst { depth: 1, quoted: false },
                    buffer: Seq::empty(),
                    word: flushed,
                    ..st
                },
                true,
            )
        } else {
            (LexState { buffer: seq!['$'], word: flushed, ..st }, false)
        }
    } else {
        (LexState { buffer: st.buffer.push(c), ..st }, false)
    }
}

/// A step inside single quotes: everything but the closing quote is text.
pub open spec fn step_single_quote(st: LexState, c: char) -> LexState {
    if c == '\'' {
        LexState {
            mode: LexMode::Word,
            buffer: Seq::empty(),
            word: st.word.push(WordPartView::Literal(st.buffer)),
            ..st
        }
    } else {
        LexState { buffer: st.buffer.push(c), ..st }
    }
}

/// A step inside double quotes: everything is text but the closing quote
/// and a `$` that opens a substitution.
pub open spec fn step_double_quote(st: LexState, c: char, next: Option<char>) -> (
    LexState,
    bool,
) {
    let flushed = flush_literal(st.buffer, st.word);
    if c == '"' {
        (LexState { mode: LexMode::Word, buffer: Seq::empty(), word: flushed, ..st }, false)
    } else if c == '$' && next == Some('(') {
        (
            LexState {
                mode: LexMode::CmdSubst { depth: 1, quoted: true },
                buffer: Seq::empty(),
                word: flushed,
                ..st
            },
            true,
        )
    } else if c == '$' && next == Some('{') {
        (
            LexState {
                mode: LexMode::ParamSubst { depth: 1, quoted: true },
                buffer: Seq::empty(),
                word: flushed,
                ..st
            },
            true,
        )
    } else {
        (LexState { buffer: st.buffer.push(c), ..st }, false)
    }
}

/// A step inside `$(`.
pub open spec fn step_cmd_subst(st: LexState, c: char, depth: nat, quoted: bool) -> LexState {
    if c == '(' {
        LexState {
            mode: LexMode::CmdSubst { depth: depth + 1, quoted },
            buffer: st.buffer.push(c),
            ..st
        }
    } else if c == ')' && depth <= 1 {
        LexState {
            mode: resume_mode(quoted),
            buffer: Seq::empty(),
            word: st.word.push(WordPartView::CmdSubst(st.buffer)),
            ..st
        }
    } else if c == ')' {
        LexState {
            mode: LexMode::CmdSubst { depth: (depth - 1) as nat, quoted },
            buffer: st.buffer.push(c),
            ..st
        }
    } else {
        LexState { buffer: st.buffer.push(c), ..st }
    }
}

/// A step inside `${`.
pub open spec fn step_param_subst(st: LexState, c: char, depth: nat, quoted: bool) -> LexState {
    if c == '{' {
        LexState {
            mode: LexMode::ParamSubst { depth: depth + 1, quoted },
            buffer: st.buffer.push(c),
            ..st
        }
    } else if c == '}' && depth <= 1 {
        LexState {
            mode: resume_mode(quoted),
            buffer: Seq::empty(),
            word: st.word.push(WordPartView::ParamSubst(st.buffer)),
            ..st
        }
    } else if c == '}' {
        LexState {
            mode: LexMode::ParamSubst { depth: (depth - 1) as nat, quoted },
            buffer: st.buffer.push(c),
            ..st
        }
    } else {
        LexState { buffer: st.buffer.push(c), ..st }
    }
}

/// One step of the machine on the character `c`, with `next` the character
/// after it, if any. The machine looks at `next` only when `c` is `$`.
pub open spec fn lex_step(st: LexState, c: char, next: Option<char>) -> (LexState, bool) {
    match st.mode {
        LexMode::Start => step_start(st, c, next),
        LexMode::Word => step_word(st, c, next),
        LexMode::SingleQuote => (step_single_quote(st, c), false),
        LexMode::DoubleQuote => step_double_quote(st, c, next),
        LexMode::CmdSubst { depth, quoted } => (step_cmd_subst(st, c, depth, quoted), false),
        LexMode::ParamSubst { depth, quoted } => (step_param_subst(st, c, depth, quoted), false),
    }
}

/// What the machine yields when the input ends in state `st`.
pub open spec fn lex_finish(st: LexState) -> Result<Seq<TokenView>, LexingError> {
    match st.mode {
        LexMode::SingleQuote | LexMode::DoubleQuote => Err(LexingError::UnfinishedQuote),
        LexMode::CmdSubst { .. } => Err(LexingError::UnfinishedCmdSubst),
        LexMode::ParamSubst { .. } => Err(LexingError::UnfinishedParamSubst),
        LexMode::Start | LexMode::Word => {
            let flushed = flush_text(st.buffer, st.word);
            if flushed.len() == 0 {
                Ok(st.out)
            } else {
                Ok(st.out.push(TokenView::Word(flushed)))
            }
        },
    }
}

/// The character at `pos`, if the input has one there.
pub open spec fn char_at(input: Seq<char>, pos: int) -> Option<char> {
    if 0 <= pos < input.len() {
        Some(input[pos])
    } else {
        None
    }
}

/// The state that the machine reaches at the end of `input`, started in
/// state `st` at position `pos`.
pub open spec fn lex_run(input: Seq<char>, pos: int, st: LexState) -> LexState
    decreases input.len() - pos,
{
    if 0 <= pos < input.len() {
        let (after, skipped) = lex_step(st, input[pos], char_at(input, pos + 1));
        lex_run(
            input,
            if skipped {
                pos + 2
            } else {
                pos + 1
            },
            after,
        )
    } else {
        st
    }
}

/// The state in which the machine starts.
pub open spec fn lex_initial() -> LexState {
    LexState { mode: LexMode::Start, buffer: Seq::empty(), word: Seq::empty(), out: Seq::empty() }
}

/// What the machine yields from position `pos` and state `st` on.
pub open spec fn lex_from(input: Seq<char>, pos: int, st: LexState) -> Result<
    Seq<TokenView>,
    LexingError,
> {
    lex_finish(lex_run(input, pos, st))
}

/// The tokens of a line, or the construct that the line leaves open.
pub open spec fn lex(input: Seq<char>) -> Result<Seq<TokenView>, LexingError> {
    lex_from(input, 0, lex_initial())
}

// ---------------------------------------------------------------------------
// The machine, as a program
// ---------------------------------------------------------------------------

#[derive(Debug, Clone, Copy, PartialEq, Eq)]
enum LexingState {
    Start,
    ReadingWord,
    ReadingSingleQuote,
    ReadingDoubleQuote,
    /// The number of open parentheses.
    ReadingCmdSubst(usize),
    /// The number of open braces.
    ReadingParamSubst(usize),
}

struct LexingFSM {
    input: Vec<char>,
    pos: usize,
    state: LexingState,
    current_word: Vec<WordPart>,
    buffer: String,
}

/// Appends a token; the tokens before it stay as they are.
fn emit(out: &mut Vec<Token>, token: Token)
    ensures
        final(out).deep_view() == old(out).deep_view().push(token.deep_view()),
{
    out.push(token);
    assert(out.deep_view() =~= old(out).deep_view().push(token.deep_view()));
}

/// Appends a part to a word; the parts before it stay as they are.
fn add_part(word: &mut Vec<WordPart>, part: WordPart)
    ensures
        final(word).deep_view() == old(word).deep_view().push(part.deep_view()),
{
    word.push(part);
    assert(word.deep_view() =~= old(word).deep_view().push(part.deep_view()));
}

/// Moves the parts out of a word, leaving it empty.
fn take_word(word: &mut Vec<WordPart>) -> (taken: Vec<WordPart>)
    ensures
        taken.deep_view() == old(word).deep_view(),
        taken@.len() == old(word)@.len(),
        final(word)@.len() == 0,
        final(word).deep_view() == Seq::<WordPartView>::empty(),
{
    let mut taken: Vec<WordPart> = Vec::new();
    std::mem::swap(word, &mut taken);
    assert(word.deep_view() =~= Seq::<WordPartView>::empty());
    taken
}

/// The token of an operator character, if `c` is one.
fn operator_token(c: char) -> (token: Option<Token>)
    ensures
        token.deep_view() == operator_of(c),
{
    if c == '|' {
        Some(Token::PipeOp)
    } else if c == '=' {
        Some(Token::Equal)
    } else if c == '/' {
        Some(Token::Slash)
    } else if c == '<' {
        Some(Token::RedirectLeft)
    } else if c == '>' {
        Some(Token::RedirectRight)
    } else {
        None
    }
}

/// The part that pending unquoted text stands for, given whether its second
/// character may begin a parameter name.
pub fn word_part_of(text: String, name_follows: bool) -> (part: WordPart)
    ensures
        part.deep_view() == if text@.len() > 1 && text@[0] == '$' && name_follows {
            WordPartView::ParamSubst(text@.skip(1))
        } else {
            WordPartView::Literal(text@)
        },
{
    let len: usize = text.as_str().unicode_len();
    if len > 1 && name_follows && text.as_str().get_char(0) == '$' {
        let name = text.as_str().substring_char(1, len).to_owned();
        assert(name@ =~= text@.skip(1));
        WordPart::ParamSubst(name)
    } else {
        WordPart::Literal(text)
    }
}

impl LexingFSM {
    spec fn mode(&self) -> LexMode {
        match self.state {
            LexingState::Start => LexMode::Start,
            LexingState::ReadingWord => LexMode::Word,
            LexingState::ReadingSingleQuote => LexMode::SingleQuote,
            LexingState::ReadingDoubleQuote => LexMode::DoubleQuote,
            LexingState::ReadingCmdSubst(depth) => LexMode::CmdSubst {
                depth: depth as nat,
                quoted: false,
            },
            LexingState::ReadingParamSubst(depth) => LexMode::ParamSubst {
                depth: depth as nat,
                quoted: false,
            },
        }
    }

    /// The state of the machine that this value and the tokens `out` stand for.
    spec fn model(&self, out: Seq<TokenView>) -> LexState {
        LexState {
            mode: self.mode(),
            buffer: self.buffer@,
            word: self.current_word.deep_view(),
            out,
        }
    }

    /// The position is inside the input, and no more brackets are open than
    /// characters were read.
    spec fn wf(&self) -> bool {
        &&& self.pos <= self.input@.len()
        &&& match self.state {
            LexingState::ReadingCmdSubst(depth) => depth <= self.pos,
            LexingState::ReadingParamSubst(depth) => depth <= self.pos,
            _ => true,
        }
    }

    /// What the machine yields from here on.
    spec fn rest(&self, out: Seq<TokenView>) -> Result<Seq<TokenView>, LexingError> {
        lex_from(self.input@, self.pos as int, self.model(out))
    }

    fn new(line: String) -> (fsm: LexingFSM)
        ensures
            fsm.wf(),
            fsm.input@ == line@,
            fsm.pos == 0,
            fsm.model(Seq::empty()) == lex_initial(),
    {
        let fsm = LexingFSM {
            input: chars_of(line.as_str()),
            pos: 0,
            state: LexingState::Start,
            current_word: Vec::new(),
            buffer: String::new(),
        };
        assert(fsm.current_word.deep_view() =~= Seq::<WordPartView>::empty());
        fsm
    }

    fn read_char(&mut self) -> (c: Option<char>)
        requires
            old(self).pos <= old(self).input@.len(),
        ensures
            c == char_at(old(self).input@, old(self).pos as int),
            final(self).pos == if c is Some {
                old(self).pos + 1
            } else {
                old(self).pos as int
            },
            final(self).input == old(self).input,
            final(self).state == old(self).state,
            final(self).current_word == old(self).current_word,
            final(self).buffer == old(self).buffer,
    {
        if self.pos < self.input.len() {
            let c = self.input[self.pos];
            self.pos += 1;
            Some(c)
        } else {
            None
        }
    }

    fn peek_char(&self) -> (c: Option<char>)
        ensures
            c == char_at(self.input@, self.pos as int),
    {
        if self.pos < self.input.len() {
            Some(self.input[self.pos])
        } else {
            None
        }
    }

    /// Ends the pending unquoted text: it becomes a part of the current word.
    fn finalize_current_word_part(&mut self)
        ensures
            final(self).buffer@ == Seq::<char>::empty(),
            final(self).current_word.deep_view() == flush_text(
                old(self).buffer@,
                old(self).current_word.deep_view(),
            ),
            final(self).input == old(self).input,
            final(self).pos == old(self).pos,
            final(self).state == old(self).state,
    {
        let len: usize = self.buffer.as_str().unicode_len();
        if len > 0 {
            let name_follows = if len > 1 {
                let second = self.buffer.as_str().get_char(1);
                second == '_' || char_is_alphabetic(second)
            } else {
                false
            };
            let text = take_string(&mut self.buffer);
            add_part(&mut self.current_word, word_part_of(text, name_follows));
        } else {
            assert(self.buffer@ =~= Seq::<char>::empty());
        }
    }

    /// Ends the pending quoted text: it becomes a literal part of the current
    /// word.
    fn finalize_literal(&mut self)
        ensures
            final(self).buffer@ == Seq::<char>::empty(),
            final(self).current_word.deep_view() == flush_literal(
                old(self).buffer@,
                old(self).current_word.deep_view(),
            ),
            final(self).input == old(self).input,
            final(self).pos == old(self).pos,
            final(self).state == old(self).state,
    {
        if !self.buffer.as_str().is_empty() {
            let text = take_string(&mut self.buffer);
            add_part(&mut self.current_word, WordPart::Literal(text));
        } else {
            assert(self.buffer@ =~= Seq::<char>::empty());
        }
    }

    /// Handles `ch` between words.
    fn handle_start(&mut self, ch: char, out: &mut Vec<Token>) -> (r: Result<(), LexingError>)
        requires
            old(self).wf(),
            old(self).pos >= 1,
            old(self).state is Start,
            ch == old(self).input@[old(self).pos - 1],
        ensures
            r is Ok,
            final(self).wf(),
            final(self).input == old(self).input,
            old(self).pos <= final(self).pos,
            final(self).rest(final(out).deep_view()) == lex_from(
                old(self).input@,
                old(self).pos - 1,
                old(self).model(old(out).deep_view()),
            ),
    {
        if ch == ' ' || ch == '\t' {
        } else if let Some(token) = operator_token(ch) {
            emit(out, token);
        } else if ch == '\'' {
            self.state = LexingState::ReadingSingleQuote;
        } else if ch == '"' {
            self.state = LexingState::ReadingDoubleQuote;
        } else if ch == '$' {
            let next = self.peek_char();
            if next == Some('(') {
                self.read_char();
                self.state = LexingState::ReadingCmdSubst(1);
            } else if next == Some('{') {
                self.read_char();
                self.state = LexingState::ReadingParamSubst(1);
            } else {
                self.finalize_literal();
                self.state = LexingState::ReadingWord;
                push_char(&mut self.buffer, '$');
                assert(self.buffer@ =~= seq!['$']);
            }
        } else {
            push_char(&mut self.buffer, ch);
            self.state = LexingState::ReadingWord;
        }
        Ok(())
    }

    /// Handles `ch` inside an unquoted word.
    fn handle_word(&mut self, ch: char, out: &mut Vec<Token>) -> (r: Result<(), LexingError>)
        requires
            old(self).wf(),
            old(self).pos >= 1,
            old(self).state is ReadingWord,
            ch == old(self).input@[old(self).pos - 1],
        ensures
            final(self).input == old(self).input,
            match r {
                Ok(_) => {
                    &&& final(self).wf()
                    &&& old(self).pos <= final(self).pos
                    &&& final(self).rest(final(out).deep_view()) == lex_from(
                        old(self).input@,
                        old(self).pos - 1,
                        old(self).model(old(out).deep_view()),
                    )
                },
                Err(e) => lex_from(
                    old(self).input@,
                    old(self).pos - 1,
                    old(self).model(old(out).deep_view()),
                ) == Err::<Seq<TokenView>, LexingError>(e),
            },
    {
        if ch == ' ' || ch == '\t' {
            self.finalize_current_word_part();
            let word = take_word(&mut self.current_word);
            emit(out, Token::Word(word));
            self.state = LexingState::Start;
        } else if let Some(token) = operator_token(ch) {
            self.finalize_current_word_part();
            if self.current_word.len() > 0 {
                let word = take_word(&mut self.current_word);
                emit(out, Token::Word(word));
            } else {
                assert(self.current_word.deep_view() =~= Seq::<WordPartView>::empty());
            }
            emit(out, token);
            self.state = LexingState::Start;
        } else if ch == '"' || ch == '\'' {
            let len: usize = self.buffer.as_str().unicode_len();
            if len > 0 && self.buffer.as_str().get_char(0) == '$' {
                self.finalize_current_word_part();
            }
            self.state = if ch == '"' {
                LexingState::ReadingDoubleQuote
            } else {
                LexingState::ReadingSingleQuote
            };
        } else if ch == '$' {
            let next = self.peek_char();
            if next == Some('(') {
                self.read_char();
                self.finalize_current_word_part();
                let ghost base = LexState {
                    mode: LexMode::CmdSubst { depth: 1, quoted: false },
                    ..self.model(out.deep_view())
                };
                let nested = self.collect_cmdsubst(1, Ghost(base))?;
                add_part(&mut self.current_word, WordPart::CmdSubst(nested));
            } else if next == Some('{') {
                self.read_char();
                self.finalize_current_word_part();
                let ghost base = LexState {
                    mode: LexMode::ParamSubst { depth: 1, quoted: false },
                    ..self.model(out.deep_view())
                };
                let nested = self.collect_paramsubst(1, Ghost(base))?;
                add_part(&mut self.current_word, WordPart::ParamSubst(nested));
            } else {
                self.finalize_current_word_part();
                push_char(&mut self.buffer, '$');
                assert(self.buffer@ =~= seq!['$']);
            }
        } else {
            push_char(&mut self.buffer, ch);
        }
        Ok(())
    }

    /// Handles `ch` inside single quotes.
    fn handle_single_quote(&mut self, ch: char, Ghost(out): Ghost<Seq<TokenView>>) -> (r: Result<
        (),
        LexingError,
    >)
        requires
            old(self).wf(),
            old(self).pos >= 1,
            old(self).state is ReadingSingleQuote,
            ch == old(self).input@[old(self).pos - 1],
        ensures
            r is Ok,
            final(self).wf(),
            final(self).input == old(self).input,
            final(self).pos == old(self).pos,
            final(self).rest(out) == lex_from(
                old(self).input@,
                old(self).pos - 1,
                old(self).model(out),
            ),
    {
        if ch == '\'' {
            let text = take_string(&mut self.buffer);
            add_part(&mut self.current_word, WordPart::Literal(text));
            self.state = LexingState::ReadingWord;
        } else {
            push_char(&mut self.buffer, ch);
        }
        Ok(())
    }

    /// Handles `ch` inside double quotes.
    fn handle_double_quote(&mut self, ch: char, Ghost(out): Ghost<Seq<TokenView>>) -> (r: Result<
        (),
        LexingError,
    >)
        requires
            old(self).wf(),
            old(self).pos >= 1,
            old(self).state is ReadingDoubleQuote,
            ch == old(self).input@[old(self).pos - 1],
        ensures
            final(self).input == old(self).input,
            match r {
                Ok(_) => {
                    &&& final(self).wf()
                    &&& old(self).pos <= final(self).pos
                    &&& final(self).rest(out) == lex_from(
                        old(self).input@,
                        old(self).pos - 1,
                        old(self).model(out),
                    )
                },
                Err(e) => lex_from(old(self).input@, old(self).pos - 1, old(self).model(out))
                    == Err::<Seq<TokenView>, LexingError>(e),
            },
    {
        let next = self.peek_char();
        if ch == '"' {
            self.finalize_literal();
            self.state = LexingState::ReadingWord;
        } else if ch == '$' && next == Some('(') {
            self.read_char();
            self.finalize_literal();
            let ghost base = LexState {
                mode: LexMode::CmdSubst { depth: 1, quoted: true },
                ..self.model(out)
            };
            let nested = self.collect_cmdsubst(1, Ghost(base))?;
            add_part(&mut self.current_word, WordPart::CmdSubst(nested));
        } else if ch == '$' && next == Some('{') {
            self.read_char();
            self.finalize_literal();
            let ghost base = LexState {
                mode: LexMode::ParamSubst { depth: 1, quoted: true },
                ..self.model(out)
            };
            let nested = self.collect_paramsubst(1, Ghost(base))?;
            add_part(&mut self.current_word, WordPart::ParamSubst(nested));
        } else {
            push_char(&mut self.buffer, ch);
        }
        Ok(())
    }

    /// Handles `ch` inside a command substitution that was opened between
    /// words.
    fn handle_cmdsubst(&mut self, ch: char, depth: usize, Ghost(out): Ghost<Seq<TokenView>>) -> (r:
        Result<(), LexingError>)
        requires
            old(self).wf(),
            old(self).pos >= 1,
            old(self).state == LexingState::ReadingCmdSubst(depth),
            depth < old(self).pos,
            ch == old(self).input@[old(self).pos - 1],
        ensures
            r is Ok,
            final(self).wf(),
            final(self).input == old(self).input,
            final(self).pos == old(self).pos,
            final(self).rest(out) == lex_from(
                old(self).input@,
                old(self).pos - 1,
                old(self).model(out),
            ),
    {
        if ch == '(' {
            push_char(&mut self.buffer, ch);
            self.state = LexingState::ReadingCmdSubst(depth + 1);
        } else if ch == ')' && depth <= 1 {
            let text = take_string(&mut self.buffer);
            add_part(&mut self.current_word, WordPart::CmdSubst(text));
            self.state = LexingState::ReadingWord;
        } else if ch == ')' {
            push_char(&mut self.buffer, ch);
            self.state = LexingState::ReadingCmdSubst(depth - 1);
        } else {
            push_char(&mut self.buffer, ch);
        }
        Ok(())
    }

    /// Handles `ch` inside a parameter substitution that was opened between
    /// words.
    fn handle_paramsubst(&mut self, ch: char, depth: usize, Ghost(out): Ghost<Seq<TokenView>>)
        -> (r: Result<(), LexingError>)
        requires
            old(self).wf(),
            old(self).pos >= 1,
            old(self).state == LexingState::ReadingParamSubst(depth),
            depth < old(self).pos,
            ch == old(self).input@[old(self).pos - 1],
        ensures
            r is Ok,
            final(self).wf(),
            final(self).input == old(self).input,
            final(self).pos == old(self).pos,
            final(self).rest(out) == lex_from(
                old(self).input@,
                old(self).pos - 1,
                old(self).model(out),
            ),
    {
        if ch == '{' {
            push_char(&mut self.buffer, ch);
            self.state = LexingState::ReadingParamSubst(depth + 1);
        } else if ch == '}' && depth <= 1 {
            let text = take_string(&mut self.buffer);
            add_part(&mut self.current_word, WordPart::ParamSubst(text));
            self.state = LexingState::ReadingWord;
        } else if ch == '}' {
            push_char(&mut self.buffer, ch);
            self.state = LexingState::ReadingParamSubst(depth - 1);
        } else {
            push_char(&mut self.buffer, ch);
        }
        Ok(())
    }

    /// Reads the body of a command substitution, up to the parenthesis that
    /// closes it. `base` is the state of the machine as the body begins.
    fn collect_cmdsubst(&mut self, depth: usize, Ghost(base): Ghost<LexState>) -> (r: Result<
        String,
        LexingError,
    >)
        requires
            old(self).pos <= old(self).input@.len(),
            1 <= depth <= old(self).pos,
            base.mode matches LexMode::CmdSubst { depth: d, .. } && d == depth,
            base.buffer == Seq::<char>::empty(),
        ensures
            final(self).input == old(self).input,
            final(self).state == old(self).state,
            final(self).current_word == old(self).current_word,
            final(self).buffer == old(self).buffer,
            old(self).pos <= final(self).pos <= final(self).input@.len(),
            match r {
                Ok(body) => lex_from(
                    old(self).input@,
                    final(self).pos as int,
                    LexState {
                        mode: resume_mode(base.mode->CmdSubst_quoted),
                        buffer: Seq::empty(),
                        word: base.word.push(WordPartView::CmdSubst(body@)),
                        out: base.out,
                    },
                ) == lex_from(old(self).input@, old(self).pos as int, base),
                Err(e) => lex_from(old(self).input@, old(self).pos as int, base) == Err::<
                    Seq<TokenView>,
                    LexingError,
                >(e),
            },
    {
        let ghost quoted = base.mode->CmdSubst_quoted;
        let mut depth: usize = depth;
        let mut body = String::new();
        loop
            invariant
                self.input == old(self).input,
                self.state == old(self).state,
                self.current_word == old(self).current_word,
                self.buffer == old(self).buffer,
                old(self).pos <= self.pos <= self.input@.len(),
                1 <= depth <= self.pos,
                quoted == base.mode->CmdSubst_quoted,
                lex_from(
                    self.input@,
                    self.pos as int,
                    LexState {
                        mode: LexMode::CmdSubst { depth: depth as nat, quoted },
                        buffer: body@,
                        ..base
                    },
                ) == lex_from(old(self).input@, old(self).pos as int, base),
            decreases self.input@.len() - self.pos,
        {
            match self.read_char() {
                None => {
                    return Err(LexingError::UnfinishedCmdSubst);
                },
                Some(ch) => {
                    if ch == '(' {
                        depth += 1;
                    } else if ch == ')' {
                        if depth <= 1 {
                            return Ok(body);
                        }
                        depth -= 1;
                    }
                    push_char(&mut body, ch);
                },
            }
        }
    }

    /// Reads the body of a parameter substitution, up to the brace that
    /// closes it. `base` is the state of the machine as the body begins.
    fn collect_paramsubst(&mut self, depth: usize, Ghost(base): Ghost<LexState>) -> (r: Result<
        String,
        LexingError,
    >)
        requires
            old(self).pos <= old(self).input@.len(),
            1 <= depth <= old(self).pos,
            base.mode matches LexMode::ParamSubst { depth: d, .. } && d == depth,
            base.buffer == Seq::<char>::empty(),
        ensures
            final(self).input == old(self).input,
            final(self).state == old(self).state,
            final(self).current_word == old(self).current_word,
            final(self).buffer == old(self).buffer,
            old(self).pos <= final(self).pos <= final(self).input@.len(),
            match r {
                Ok(body) => lex_from(
                    old(self).input@,
                    final(self).pos as int,
                    LexState {
                        mode: resume_mode(base.mode->ParamSubst_quoted),
                        buffer: Seq::empty(),
                        word: base.word.push(WordPartView::ParamSubst(body@)),
                        out: base.out,
                    },
                ) == lex_from(old(self).input@, old(self).pos as int, base),
                Err(e) => lex_from(old(self).input@, old(self).pos as int, base) == Err::<
                    Seq<TokenView>,
                    LexingError,
                >(e),
            },
    {
        let ghost quoted = base.mode->ParamSubst_quoted;
        let mut depth: usize = depth;
        let mut body = String::new();
        loop
            invariant
                self.input == old(self).input,
                self.state == old(self).state,
                self.current_word == old(self).current_word,
                self.buffer == old(self).buffer,
                old(self).pos <= self.pos <= self.input@.len(),
                1 <= depth <= self.pos,
                quoted == base.mode->ParamSubst_quoted,
                lex_from(
                    self.input@,
                    self.pos as int,
                    LexState {
                        mode: LexMode::ParamSubst { depth: depth as nat, quoted },
                        buffer: body@,
                        ..base
                    },
                ) == lex_from(old(self).input@, old(self).pos as int, base),
            decreases self.input@.len() - self.pos,
        {
            match self.read_char() {
                None => {
                    return Err(LexingError::UnfinishedParamSubst);
                },
                Some(ch) => {
                    if ch == '{' {
                        depth += 1;
                    } else if ch == '}' {
                        if depth <= 1 {
                            return Ok(body);
                        }
                        depth -= 1;
                    }
                    push_char(&mut body, ch);
                },
            }
        }
    }

    /// Runs the machine to the end of the input.
    fn make_tokens(&mut self) -> (r: Result<Vec<Token>, LexingError>)
        requires
            old(self).wf(),
        ensures
            match r {
                Ok(tokens) => old(self).rest(Seq::empty()) == Ok::<Seq<TokenView>, LexingError>(
                    tokens.deep_view(),
                ),
                Err(e) => old(self).rest(Seq::empty()) == Err::<Seq<TokenView>, LexingError>(e),
            },
    {
        let mut out: Vec<Token> = Vec::new();
        assert(out.deep_view() =~= Seq::<TokenView>::empty());
        loop
            invariant
                self.wf(),
                self.input == old(self).input,
                self.rest(out.deep_view()) == old(self).rest(Seq::empty()),
            ensures
                self.pos == self.input@.len(),
            decreases self.input@.len() - self.pos,
        {
            let ch = match self.read_char() {
                None => {
                    break ;
                },
                Some(ch) => ch,
            };
            match self.state {
                LexingState::Start => self.handle_start(ch, &mut out)?,
                LexingState::ReadingWord => self.handle_word(ch, &mut out)?,
                LexingState::ReadingSingleQuote => self.handle_single_quote(
                    ch,
                    Ghost(out.deep_view()),
                )?,
                LexingState::ReadingDoubleQuote => self.handle_double_quote(
                    ch,
                    Ghost(out.deep_view()),
                )?,
                LexingState::ReadingCmdSubst(depth) => self.handle_cmdsubst(
                    ch,
                    depth,
                    Ghost(out.deep_view()),
                )?,
                LexingState::ReadingParamSubst(depth) => self.handle_paramsubst(
                    ch,
                    depth,
                    Ghost(out.deep_view()),
                )?,
            }
        }
        match self.state {
            LexingState::ReadingSingleQuote => return Err(LexingError::UnfinishedQuote),
            LexingState::ReadingDoubleQuote => return Err(LexingError::UnfinishedQuote),
            LexingState::ReadingCmdSubst(_) => return Err(LexingError::UnfinishedCmdSubst),
            LexingState::ReadingParamSubst(_) => return Err(LexingError::UnfinishedParamSubst),
            _ => {},
        }
        self.finalize_current_word_part();
        if self.current_word.len() > 0 {
            let word = take_word(&mut self.current_word);
            emit(&mut out, Token::Word(word));
        } else {
            assert(self.current_word.deep_view() =~= Seq::<WordPartView>::empty());
        }
        Ok(out)
    }
}

/// Splits a line into tokens.
///
/// The result is what the machine [`lex`] yields on the characters of the
/// line: its tokens, in the order in which they stand in the line, or the
/// error that names the construct that the line leaves open. There are
/// tokens if and only if the line closes every quote and substitution that
/// it opens.
pub fn split_into_tokens(line: String) -> (r: Result<Vec<Token>, LexingError>)
    ensures
        match r {
            Ok(tokens) => lex(line@) == Ok::<Seq<TokenView>, LexingError>(tokens.deep_view()),
            Err(e) => lex(line@) == Err::<Seq<TokenView>, LexingError>(e),
        },
        r is Ok <==> balanced(line@),
{
    proof {
        lemma_lex_succeeds_iff_balanced(line@);
    }
    let mut lexer = LexingFSM::new(line);
    lexer.make_tokens()
}

} // verus!
