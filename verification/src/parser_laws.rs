//! What holds of the parser on every sequence of tokens.
use crate::lexer::{TokenView, WordPartView};
use crate::parser::{
    gather_parts, is_ascii_letter, no_parts, parse, parse_assignment, parse_command,
    parse_element, parse_elements, parse_path, parse_pipeline, parse_redirection, parse_stages,
    starts_like_name, token_at, word_of_parts, AstView, CommandParts, ParsingErrorView,
    RedirectKind, WordView,
};
use vstd::prelude::*;

verus! {

// ---------------------------------------------------------------------------
// Trees that the parser builds are well formed
// ---------------------------------------------------------------------------

/// A compound word has parts, and is not a single literal.
pub open spec fn word_is_normal(word: WordView) -> bool {
    match word {
        WordView::Literal(_) => true,
        WordView::Compound(parts) => parts.len() >= 1 && !(parts.len() == 1 && parts[0]
            is Literal),
    }
}

/// An assignment has a name that begins with an ASCII letter, and a
/// value, if it has one, that is normal.
pub open spec fn assignment_is_sound(node: AstView) -> bool {
    &&& node matches AstView::Assignment { name, value }
    &&& name.len() > 0
    &&& is_ascii_letter(name[0])
    &&& value matches Some(word) ==> word_is_normal(word)
}

/// A redirection has a normal target.
pub open spec fn redirect_is_sound(node: AstView) -> bool {
    node matches AstView::Redirect { target, .. } && word_is_normal(target)
}

/// What a command has gathered is sound in each of its elements.
pub open spec fn parts_are_sound(parts: CommandParts) -> bool {
    &&& forall|i: int| 0 <= i < parts.argv.len() ==> word_is_normal(#[trigger] parts.argv[i])
    &&& forall|i: int|
        0 <= i < parts.assignments.len() ==> assignment_is_sound(#[trigger] parts.assignments[i])
    &&& forall|i: int|
        0 <= i < parts.redirects.len() ==> redirect_is_sound(#[trigger] parts.redirects[i])
}

/// The number of elements that a command has gathered.
pub open spec fn size_of(parts: CommandParts) -> nat {
    parts.argv.len() + parts.assignments.len() + parts.redirects.len()
}

/// A command is never empty, and each of its elements is sound.
pub open spec fn command_is_sound(node: AstView) -> bool {
    &&& node matches AstView::Command { argv, assignments, redirects }
    &&& argv.len() + assignments.len() + redirects.len() > 0
    &&& parts_are_sound(CommandParts { argv, assignments, redirects })
}

/// A tree is a sound command, or a pipeline of two or more sound commands.
pub open spec fn tree_is_sound(node: AstView) -> bool {
    ||| command_is_sound(node)
    ||| {
        &&& node matches AstView::Pipeline(stages)
        &&& stages.len() >= 2
        &&& forall|i: int| 0 <= i < stages.len() ==> command_is_sound(#[trigger] stages[i])
    }
}

/// The word of any parts is normal.
pub proof fn lemma_word_of_parts_is_normal(parts: Seq<WordPartView>)
    ensures
        word_is_normal(word_of_parts(parts)),
{
}

/// Gathering the parts of a path goes forward, and goes past the first
/// token if that is a word or a slash.
proof fn lemma_gather_advances(ts: Seq<TokenView>, pos: int, parts: Seq<WordPartView>)
    requires
        0 <= pos,
    ensures
        gather_parts(ts, pos, parts) matches Ok((_, next)) ==> {
            &&& pos <= next <= ts.len() || (next == pos && pos > ts.len())
            &&& (token_at(ts, pos) is Some && (token_at(ts, pos)->0 is Word || token_at(ts, pos)->0
                is Slash)) ==> pos < next
        },
    decreases ts.len() - pos,
{
    match token_at(ts, pos) {
        Some(TokenView::Word(more)) => {
            lemma_gather_advances(ts, pos + 1, parts + more);
        },
        Some(TokenView::Slash) => {
            lemma_gather_advances(ts, pos + 1, parts.push(WordPartView::Literal(seq!['/'])));
        },
        _ => {},
    }
}

/// An element of a command is at least one token, and is sound if what
/// the command had gathered is.
proof fn lemma_element(ts: Seq<TokenView>, pos: int, sofar: CommandParts)
    requires
        0 <= pos,
    ensures
        parse_element(ts, pos, sofar) matches Ok((more, next)) ==> {
            &&& pos < next <= ts.len()
            &&& size_of(more) == size_of(sofar) + 1
            &&& parts_are_sound(sofar) ==> parts_are_sound(more)
        },
{
    if let Ok((more, next)) = parse_element(ts, pos, sofar) {
        lemma_gather_advances(ts, pos, Seq::empty());
        match token_at(ts, pos) {
            Some(TokenView::Word(parts)) => {
                let before_equal = token_at(ts, pos + 1) == Some(TokenView::Equal);
                let before_slash = token_at(ts, pos + 1) == Some(TokenView::Slash);
                if sofar.argv.len() == 0 && before_equal && starts_like_name(parts) {
                    let node = parse_assignment(ts, pos)->Ok_0.0;
                    assert(assignment_is_sound(node));
                    assert(more.assignments == sofar.assignments.push(node));
                } else if before_equal || before_slash {
                    let word = parse_path(ts, pos)->Ok_0.0;
                    assert(word_is_normal(word));
                    assert(more.argv == sofar.argv.push(word));
                } else {
                    assert(more.argv == sofar.argv.push(word_of_parts(parts)));
                }
            },
            Some(TokenView::Slash) => {
                let word = parse_path(ts, pos)->Ok_0.0;
                assert(word_is_normal(word));
                assert(more.argv == sofar.argv.push(word));
            },
            Some(TokenView::RedirectLeft) | Some(TokenView::RedirectRight) => {
                let node = parse_redirection(ts, pos)->Ok_0.0;
                assert(redirect_is_sound(node));
                assert(more.redirects == sofar.redirects.push(node));
            },
            _ => {},
        }
    }
}

/// The elements of a command are sound if what the command had gathered
/// is, and they end at a `|` or at the end of the tokens.
proof fn lemma_elements(ts: Seq<TokenView>, pos: int, sofar: CommandParts)
    requires
        0 <= pos,
    ensures
        parse_elements(ts, pos, sofar) matches Ok((all, next)) ==> {
            &&& pos <= next
            &&& token_at(ts, next) is None || token_at(ts, next) == Some(TokenView::PipeOp)
            &&& size_of(all) >= size_of(sofar)
            &&& parts_are_sound(sofar) ==> parts_are_sound(all)
        },
    decreases ts.len() - pos,
{
    match token_at(ts, pos) {
        None | Some(TokenView::PipeOp) => {},
        Some(_) => {
            lemma_element(ts, pos, sofar);
            if let Ok((more, next)) = parse_element(ts, pos, sofar) {
                lemma_elements(ts, next, more);
            }
        },
    }
}

/// A command that the parser builds is sound.
proof fn lemma_command(ts: Seq<TokenView>, pos: int)
    requires
        0 <= pos,
    ensures
        parse_command(ts, pos) matches Ok((node, next)) ==> {
            &&& pos < next <= ts.len()
            &&& token_at(ts, next) is None || token_at(ts, next) == Some(TokenView::PipeOp)
            &&& command_is_sound(node)
        },
{
    lemma_elements(ts, pos, no_parts());
    lemma_command_is_not_empty(ts, pos, no_parts());
}

/// Elements that make a command of some size take at least one token.
proof fn lemma_command_is_not_empty(ts: Seq<TokenView>, pos: int, sofar: CommandParts)
    requires
        0 <= pos,
    ensures
        parse_elements(ts, pos, sofar) matches Ok((all, next)) ==> next <= ts.len() || next
            == pos,
        parse_elements(ts, pos, sofar) matches Ok((all, next)) ==> size_of(all) > size_of(sofar)
            ==> pos < next,
    decreases ts.len() - pos,
{
    match token_at(ts, pos) {
        None | Some(TokenView::PipeOp) => {},
        Some(_) => {
            lemma_element(ts, pos, sofar);
            if let Ok((more, next)) = parse_element(ts, pos, sofar) {
                lemma_command_is_not_empty(ts, next, more);
                lemma_elements(ts, next, more);
            }
        },
    }
}

/// The stages that the parser adds to a pipeline are sound commands.
proof fn lemma_stages(ts: Seq<TokenView>, pos: int, sofar: Seq<AstView>)
    requires
        0 <= pos,
        forall|i: int| 0 <= i < sofar.len() ==> command_is_sound(#[trigger] sofar[i]),
    ensures
        parse_stages(ts, pos, sofar) matches Ok((all, next)) ==> {
            &&& all.len() >= sofar.len()
            &&& forall|i: int| 0 <= i < all.len() ==> command_is_sound(#[trigger] all[i])
            &&& token_at(ts, next) != Some(TokenView::PipeOp)
        },
    decreases ts.len() - pos,
{
    if token_at(ts, pos) == Some(TokenView::PipeOp) {
        lemma_command(ts, pos + 1);
        if let Ok((command, next)) = parse_command(ts, pos + 1) {
            let more = sofar.push(command);
            assert forall|i: int| 0 <= i < more.len() implies command_is_sound(
                #[trigger] more[i],
            ) by {
                if i < sofar.len() {
                    assert(more[i] == sofar[i]);
                }
            }
            lemma_stages(ts, next, more);
        }
    }
}

/// Every tree that the parser builds is well formed: no command is empty,
/// no pipeline has a single stage, no compound word is without parts or a
/// single literal, and the name of an assignment begins with a letter.
pub proof fn lemma_parse_builds_sound_trees(ts: Seq<TokenView>)
    ensures
        parse(ts) matches Ok(tree) ==> tree_is_sound(tree),
{
    lemma_command(ts, 0);
    if let Ok((first, after_first)) = parse_command(ts, 0) {
        let one = seq![first];
        assert forall|i: int| 0 <= i < one.len() implies command_is_sound(#[trigger] one[i]) by {}
        lemma_stages(ts, after_first, one);
    }
}

/// The parser stops only at the end: the tokens that follow a pipeline
/// that it has read are none.
pub proof fn lemma_pipeline_reads_everything(ts: Seq<TokenView>)
    ensures
        parse_pipeline(ts, 0) matches Ok((_, next)) ==> token_at(ts, next) is None,
{
    lemma_command(ts, 0);
    if let Ok((first, after_first)) = parse_command(ts, 0) {
        let one = seq![first];
        assert forall|i: int| 0 <= i < one.len() implies command_is_sound(#[trigger] one[i]) by {}
        lemma_stages(ts, after_first, one);
        lemma_stages_end(ts, after_first, one);
    }
}

/// The stages of a pipeline end at the end of the tokens.
proof fn lemma_stages_end(ts: Seq<TokenView>, pos: int, sofar: Seq<AstView>)
    requires
        0 <= pos,
        token_at(ts, pos) is None || token_at(ts, pos) == Some(TokenView::PipeOp),
    ensures
        parse_stages(ts, pos, sofar) matches Ok((_, next)) ==> token_at(ts, next) is None,
    decreases ts.len() - pos,
{
    if token_at(ts, pos) == Some(TokenView::PipeOp) {
        lemma_command(ts, pos + 1);
        if let Ok((command, next)) = parse_command(ts, pos + 1) {
            lemma_stages_end(ts, next, sofar.push(command));
        }
    }
}

// ---------------------------------------------------------------------------
// Paths and arguments with `=` are one word
// ---------------------------------------------------------------------------

/// The tokens `window` stand in `ts` from `pos` on.
pub open spec fn stands_at(ts: Seq<TokenView>, pos: int, window: Seq<TokenView>) -> bool {
    &&& 0 <= pos
    &&& pos + window.len() <= ts.len()
    &&& forall|k: int| 0 <= k < window.len() ==> ts[pos + k] == #[trigger] window[k]
}

/// A token that a path is made of: a word or a slash.
pub open spec fn is_path_token(token: TokenView) -> bool {
    token is Word || token is Slash
}

/// The parts that one token of a path adds to the path.
pub open spec fn path_token_parts(token: TokenView) -> Seq<WordPartView> {
    match token {
        TokenView::Word(parts) => parts,
        _ => seq![WordPartView::Literal(seq!['/'])],
    }
}

/// The parts of a path: those of its words, and a literal `/` for each
/// slash, in order.
pub open spec fn path_parts(tokens: Seq<TokenView>) -> Seq<WordPartView>
    decreases tokens.len(),
{
    if tokens.len() == 0 {
        Seq::empty()
    } else {
        path_token_parts(tokens[0]) + path_parts(tokens.skip(1))
    }
}

/// Words and slashes that stand together are gathered into the parts of
/// one path, however many they are, up to the first token that is neither.
proof fn lemma_path_is_gathered(
    ts: Seq<TokenView>,
    pos: int,
    tokens: Seq<TokenView>,
    parts: Seq<WordPartView>,
)
    requires
        stands_at(ts, pos, tokens),
        forall|k: int| 0 <= k < tokens.len() ==> is_path_token(#[trigger] tokens[k]),
        token_at(ts, pos + tokens.len()) matches Some(next) ==> !is_path_token(next) && !(next
            is Equal),
    ensures
        gather_parts(ts, pos, parts) == Ok::<(Seq<WordPartView>, int), ParsingErrorView>(
            (parts + path_parts(tokens), pos + tokens.len()),
        ),
    decreases tokens.len(),
{
    if tokens.len() == 0 {
        assert(parts + path_parts(tokens) =~= parts);
    } else {
        let rest = tokens.skip(1);
        assert(ts[pos + 0] == tokens[0]);
        assert(is_path_token(tokens[0]));
        assert(stands_at(ts, pos + 1, rest)) by {
            assert forall|k: int| 0 <= k < rest.len() implies ts[pos + 1 + k]
                == #[trigger] rest[k] by {
                assert(rest[k] == tokens[k + 1]);
            }
        }
        assert forall|k: int| 0 <= k < rest.len() implies is_path_token(#[trigger] rest[k]) by {
            assert(rest[k] == tokens[k + 1]);
        }
        let more = parts + path_token_parts(tokens[0]);
        match tokens[0] {
            TokenView::Word(first) => {},
            _ => {
                assert(more =~= parts.push(WordPartView::Literal(seq!['/'])));
            },
        }
        lemma_path_is_gathered(ts, pos + 1, rest, more);
        assert(more + path_parts(rest) =~= parts + path_parts(tokens));
    }
}

/// A path that is split into words and slashes is one argument: where a
/// word before a slash, or a slash, begins a run of words and slashes, the
/// whole run becomes one word, whose parts are those of the run.
pub proof fn lemma_path_is_one_argument(
    ts: Seq<TokenView>,
    pos: int,
    tokens: Seq<TokenView>,
    sofar: CommandParts,
)
    requires
        stands_at(ts, pos, tokens),
        tokens.len() >= 1,
        forall|k: int| 0 <= k < tokens.len() ==> is_path_token(#[trigger] tokens[k]),
        tokens[0] is Slash || (tokens.len() >= 2 && tokens[1] is Slash),
        token_at(ts, pos + tokens.len()) matches Some(next) ==> !is_path_token(next) && !(next
            is Equal),
    ensures
        parse_element(ts, pos, sofar) == Ok::<(CommandParts, int), ParsingErrorView>(
            (
                CommandParts { argv: sofar.argv.push(word_of_parts(path_parts(tokens))), ..sofar },
                pos + tokens.len(),
            ),
        ),
{
    lemma_path_is_gathered(ts, pos, tokens, Seq::empty());
    assert(Seq::<WordPartView>::empty() + path_parts(tokens) =~= path_parts(tokens));
    assert(ts[pos + 0] == tokens[0]);
    lemma_path_has_a_slash(tokens);
    if tokens.len() >= 2 {
        assert(ts[pos + 1] == tokens[1]);
    }
}

/// The parts of a path that holds a slash are not empty.
proof fn lemma_path_has_a_slash(tokens: Seq<TokenView>)
    requires
        tokens.len() >= 1,
        tokens[0] is Slash || (tokens.len() >= 2 && tokens[1] is Slash),
    ensures
        path_parts(tokens).len() > 0,
{
    reveal_with_fuel(path_parts, 3);
    if !(tokens[0] is Slash) {
        assert(tokens.skip(1)[0] == tokens[1]);
    }
}

/// An argument with `=` in it is one argument: a word, `=` and a word,
/// where the first word is not the name of an assignment, become one word
/// whose parts are those of the two words with a literal `=` between
/// them.
pub proof fn lemma_flag_is_one_argument(
    ts: Seq<TokenView>,
    pos: int,
    flag: Seq<WordPartView>,
    value: Seq<WordPartView>,
    sofar: CommandParts,
)
    requires
        stands_at(ts, pos, seq![TokenView::Word(flag), TokenView::Equal, TokenView::Word(value)]),
        flag.len() > 0,
        sofar.argv.len() > 0 || !starts_like_name(flag),
    ensures
        parse_element(ts, pos, sofar) == Ok::<(CommandParts, int), ParsingErrorView>(
            (
                CommandParts {
                    argv: sofar.argv.push(
                        WordView::Compound(flag.push(WordPartView::Literal(seq!['='])) + value),
                    ),
                    ..sofar
                },
                pos + 3,
            ),
        ),
{
    let window = seq![TokenView::Word(flag), TokenView::Equal, TokenView::Word(value)];
    assert(ts[pos + 0] == window[0]);
    assert(ts[pos + 1] == window[1]);
    assert(ts[pos + 2] == window[2]);
    reveal_with_fuel(gather_parts, 3);
    assert(Seq::<WordPartView>::empty() + flag =~= flag);
    let joined = flag.push(WordPartView::Literal(seq!['='])) + value;
    assert(joined.len() >= 2);
}

// ---------------------------------------------------------------------------
// The errors of the grammar
// ---------------------------------------------------------------------------

/// An error about a token that stands in the wrong place, or about tokens
/// that end too early.
pub open spec fn is_misplacement(e: ParsingErrorView) -> bool {
    e is UnexpectedToken || e is UnexpectedEnd
}

/// Parts that are gathered are never fewer than those that were there.
proof fn lemma_gather_keeps_parts(ts: Seq<TokenView>, pos: int, parts: Seq<WordPartView>)
    ensures
        gather_parts(ts, pos, parts) matches Ok((all, _)) ==> all.len() >= parts.len(),
        gather_parts(ts, pos, parts) matches Err(e) ==> is_misplacement(e),
    decreases ts.len() - pos,
{
    match token_at(ts, pos) {
        Some(TokenView::Word(more)) => {
            lemma_gather_keeps_parts(ts, pos + 1, parts + more);
        },
        Some(TokenView::Slash) => {
            lemma_gather_keeps_parts(ts, pos + 1, parts.push(WordPartView::Literal(seq!['/'])));
        },
        _ => {},
    }
}

/// A path that begins with a slash, or with a word before a slash or an
/// `=`, has parts: where it is read at all, it is read as a word.
proof fn lemma_path_has_parts(ts: Seq<TokenView>, pos: int)
    requires
        token_at(ts, pos) == Some(TokenView::Slash) || (token_at(ts, pos) is Some && token_at(
            ts,
            pos,
        )->0 is Word && (token_at(ts, pos + 1) == Some(TokenView::Slash) || token_at(ts, pos + 1)
            == Some(TokenView::Equal))),
    ensures
        parse_path(ts, pos) matches Err(e) ==> is_misplacement(e),
{
    reveal_with_fuel(gather_parts, 3);
    let slash = WordPartView::Literal(seq!['/']);
    match token_at(ts, pos) {
        Some(TokenView::Slash) => {
            lemma_gather_keeps_parts(ts, pos + 1, Seq::<WordPartView>::empty().push(slash));
        },
        Some(TokenView::Word(first)) => {
            let parts = Seq::<WordPartView>::empty() + first;
            if token_at(ts, pos + 1) == Some(TokenView::Slash) {
                lemma_gather_keeps_parts(ts, pos + 2, parts.push(slash));
            }
        },
        _ => {},
    }
}

/// The errors of an element are about misplaced or missing tokens.
proof fn lemma_element_errors(ts: Seq<TokenView>, pos: int, sofar: CommandParts)
    ensures
        parse_element(ts, pos, sofar) matches Err(e) ==> is_misplacement(e),
{
    match token_at(ts, pos) {
        Some(TokenView::Word(parts)) => {
            let before_equal = token_at(ts, pos + 1) == Some(TokenView::Equal);
            let before_slash = token_at(ts, pos + 1) == Some(TokenView::Slash);
            if sofar.argv.len() == 0 && before_equal && starts_like_name(parts) {
            } else if before_equal || before_slash {
                lemma_path_has_parts(ts, pos);
            }
        },
        Some(TokenView::Slash) => {
            lemma_path_has_parts(ts, pos);
        },
        _ => {},
    }
}

/// The errors of the elements of a command are about misplaced or missing
/// tokens.
proof fn lemma_elements_errors(ts: Seq<TokenView>, pos: int, sofar: CommandParts)
    ensures
        parse_elements(ts, pos, sofar) matches Err(e) ==> is_misplacement(e),
    decreases ts.len() - pos,
{
    match token_at(ts, pos) {
        None | Some(TokenView::PipeOp) => {},
        Some(_) => {
            lemma_element_errors(ts, pos, sofar);
            if let Ok((more, next)) = parse_element(ts, pos, sofar) {
                if pos < next <= ts.len() {
                    lemma_elements_errors(ts, next, more);
                }
            }
        },
    }
}

/// The errors of the stages of a pipeline are about misplaced or missing
/// tokens, or about a command that is empty.
proof fn lemma_stages_errors(ts: Seq<TokenView>, pos: int, sofar: Seq<AstView>)
    ensures
        parse_stages(ts, pos, sofar) matches Err(e) ==> is_misplacement(e) || e is EmptyPipeline,
    decreases ts.len() - pos,
{
    if token_at(ts, pos) == Some(TokenView::PipeOp) {
        lemma_elements_errors(ts, pos + 1, no_parts());
        if let Ok((command, next)) = parse_command(ts, pos + 1) {
            if pos < next <= ts.len() {
                lemma_stages_errors(ts, next, sofar.push(command));
            }
        }
    }
}

/// The parser refuses tokens for three reasons only: a token stands where
/// the grammar has no place for it, the tokens end in the middle of a
/// construct, or a command is empty. The name of an assignment is never
/// found empty or compound, and a path is never found without parts,
/// because a word is taken for a name or a path only where it is one.
pub proof fn lemma_parse_errors(ts: Seq<TokenView>)
    ensures
        parse(ts) matches Err(e) ==> e is UnexpectedToken || e is UnexpectedEnd || e
            is EmptyPipeline,
{
    lemma_elements_errors(ts, 0, no_parts());
    if let Ok((first, after_first)) = parse_command(ts, 0) {
        lemma_stages_errors(ts, after_first, seq![first]);
    }
}

// ---------------------------------------------------------------------------
// Lines that are spelled by the grammar are parsed, and parsed back
// ---------------------------------------------------------------------------

/// An element of a command.
pub enum Element {
    /// `name=value`, or `name=` with no value.
    Assignment { name: Seq<char>, value: Option<WordView> },
    /// A word: the name of the command or an argument.
    Argument(WordView),
    /// `< target`, `> target` or `>> target`.
    Redirection { kind: RedirectKind, target: WordView },
}

/// The parts of the token that spells a word.
pub open spec fn parts_of(word: WordView) -> Seq<WordPartView> {
    match word {
        WordView::Literal(text) => seq![WordPartView::Literal(text)],
        WordView::Compound(parts) => parts,
    }
}

/// The token that spells a word.
pub open spec fn word_token(word: WordView) -> TokenView {
    TokenView::Word(parts_of(word))
}

/// The tokens that spell an element.
pub open spec fn spell_element(element: Element) -> Seq<TokenView> {
    match element {
        Element::Assignment { name, value } => match value {
            Some(word) => seq![
                word_token(WordView::Literal(name)),
                TokenView::Equal,
                word_token(word),
            ],
            None => seq![word_token(WordView::Literal(name)), TokenView::Equal],
        },
        Element::Argument(word) => seq![word_token(word)],
        Element::Redirection { kind, target } => match kind {
            RedirectKind::Input => seq![TokenView::RedirectLeft, word_token(target)],
            RedirectKind::Output => seq![TokenView::RedirectRight, word_token(target)],
            RedirectKind::Append => seq![
                TokenView::RedirectRight,
                TokenView::RedirectRight,
                word_token(target),
            ],
        },
    }
}

/// The tokens that spell the elements of a command, one after the other.
pub open spec fn spell_elements(elements: Seq<Element>) -> Seq<TokenView>
    decreases elements.len(),
{
    if elements.len() == 0 {
        Seq::empty()
    } else {
        spell_element(elements[0]) + spell_elements(elements.skip(1))
    }
}

/// What a command has gathered, with one element more.
pub open spec fn add_element(sofar: CommandParts, element: Element) -> CommandParts {
    match element {
        Element::Assignment { name, value } => CommandParts {
            assignments: sofar.assignments.push(AstView::Assignment { name, value }),
            ..sofar
        },
        Element::Argument(word) => CommandParts { argv: sofar.argv.push(word), ..sofar },
        Element::Redirection { kind, target } => CommandParts {
            redirects: sofar.redirects.push(AstView::Redirect { kind, target }),
            ..sofar
        },
    }
}

/// What a command has gathered, with the elements added in order.
pub open spec fn add_elements(sofar: CommandParts, elements: Seq<Element>) -> CommandParts
    decreases elements.len(),
{
    if elements.len() == 0 {
        sofar
    } else {
        add_elements(add_element(sofar, elements[0]), elements.skip(1))
    }
}

/// An element whose words are normal and whose name, if it has one, begins
/// with an ASCII letter.
pub open spec fn element_is_sound(element: Element) -> bool {
    match element {
        Element::Assignment { name, value } => assignment_is_sound(
            AstView::Assignment { name, value },
        ),
        Element::Argument(word) => word_is_normal(word),
        Element::Redirection { kind, target } => word_is_normal(target),
    }
}

/// Elements in an order that the grammar can tell apart: every element is
/// sound, an assignment stands before the first argument, and an
/// assignment without a value is the last element of its command.
/// `before_arguments` says that no argument stands before these elements.
pub open spec fn in_order(elements: Seq<Element>, before_arguments: bool) -> bool
    decreases elements.len(),
{
    if elements.len() == 0 {
        true
    } else {
        let rest = elements.skip(1);
        element_is_sound(elements[0]) && match elements[0] {
            Element::Assignment { name, value } => before_arguments && (value is Some
                || rest.len() == 0) && in_order(rest, true),
            Element::Argument(_) => in_order(rest, false),
            Element::Redirection { .. } => in_order(rest, before_arguments),
        }
    }
}

/// Tokens that stand somewhere stand there part by part.
proof fn lemma_stands_in_parts(
    ts: Seq<TokenView>,
    pos: int,
    first: Seq<TokenView>,
    second: Seq<TokenView>,
)
    requires
        stands_at(ts, pos, first + second),
    ensures
        stands_at(ts, pos, first),
        stands_at(ts, pos + first.len(), second),
{
    let both = first + second;
    assert forall|k: int| 0 <= k < first.len() implies ts[pos + k] == #[trigger] first[k] by {
        assert(both[k] == first[k]);
    }
    assert forall|k: int| 0 <= k < second.len() implies ts[pos + first.len() + k]
        == #[trigger] second[k] by {
        assert(both[first.len() + k] == second[k]);
    }
}

/// The word of the parts that spell a normal word is that word.
pub proof fn lemma_word_is_read_back(word: WordView)
    requires
        word_is_normal(word),
    ensures
        word_of_parts(parts_of(word)) == word,
{
    match word {
        WordView::Literal(text) => {
            assert(parts_of(word)[0] == WordPartView::Literal(text));
        },
        WordView::Compound(parts) => {},
    }
}

/// A command ends here: at a `|` or at the end of the tokens.
pub open spec fn command_ends(ts: Seq<TokenView>, pos: int) -> bool {
    token_at(ts, pos) is None || token_at(ts, pos) == Some(TokenView::PipeOp)
}

/// The first token of the spelling of elements is a word or a redirection
/// sign.
proof fn lemma_elements_begin(elements: Seq<Element>)
    requires
        elements.len() > 0,
    ensures
        spell_elements(elements).len() > 0,
        spell_elements(elements)[0] is Word || spell_elements(elements)[0] is RedirectLeft
            || spell_elements(elements)[0] is RedirectRight,
{
    let first = spell_element(elements[0]);
    assert(first.len() > 0);
    assert(spell_elements(elements)[0] == first[0]);
}

/// What follows an element in the spelling of a command is the end of
/// the command or the beginning of another element: never `=` or `/`.
proof fn lemma_after_element(ts: Seq<TokenView>, pos: int, rest: Seq<Element>)
    requires
        stands_at(ts, pos, spell_elements(rest)),
        command_ends(ts, pos + spell_elements(rest).len()),
    ensures
        token_at(ts, pos) != Some(TokenView::Equal),
        token_at(ts, pos) != Some(TokenView::Slash),
        rest.len() == 0 ==> command_ends(ts, pos),
        rest.len() > 0 ==> token_at(ts, pos) == Some(spell_elements(rest)[0]),
{
    if rest.len() > 0 {
        lemma_elements_begin(rest);
        assert(ts[pos + 0] == spell_elements(rest)[0]);
    }
}

/// An element that is spelled at `pos` is read back as it is, and with all
/// its tokens.
proof fn lemma_spelled_element_parses(
    ts: Seq<TokenView>,
    pos: int,
    element: Element,
    rest: Seq<Element>,
    sofar: CommandParts,
)
    requires
        stands_at(ts, pos, spell_element(element) + spell_elements(rest)),
        command_ends(ts, pos + spell_element(element).len() + spell_elements(rest).len()),
        in_order(seq![element] + rest, sofar.argv.len() == 0),
    ensures
        parse_element(ts, pos, sofar) == Ok::<(CommandParts, int), ParsingErrorView>(
            (add_element(sofar, element), pos + spell_element(element).len()),
        ),
{
    let spelled = spell_element(element);
    let all = seq![element] + rest;
    assert(all[0] == element);
    assert(all.skip(1) =~= rest);
    lemma_stands_in_parts(ts, pos, spelled, spell_elements(rest));
    let after = pos + spelled.len();
    lemma_after_element(ts, after, rest);
    assert(ts[pos + 0] == spelled[0]);
    match element {
        Element::Assignment { name, value } => {
            assert(ts[pos + 1] == spelled[1]);
            let name_parts = parts_of(WordView::Literal(name));
            assert(name_parts[0] == WordPartView::Literal(name));
            assert(starts_like_name(name_parts));
            match value {
                Some(word) => {
                    assert(ts[pos + 2] == spelled[2]);
                    lemma_word_is_read_back(word);
                },
                None => {
                    assert(rest.len() == 0);
                },
            }
        },
        Element::Argument(word) => {
            lemma_word_is_read_back(word);
        },
        Element::Redirection { kind, target } => {
            assert(ts[pos + 1] == spelled[1]);
            lemma_word_is_read_back(target);
            match kind {
                RedirectKind::Append => {
                    assert(ts[pos + 2] == spelled[2]);
                },
                _ => {},
            }
        },
    }
}

/// The elements of a command that are spelled at `pos`, in an order that
/// the grammar can tell apart, are read back as they are.
proof fn lemma_spelled_elements_parse(
    ts: Seq<TokenView>,
    pos: int,
    elements: Seq<Element>,
    sofar: CommandParts,
)
    requires
        stands_at(ts, pos, spell_elements(elements)),
        command_ends(ts, pos + spell_elements(elements).len()),
        in_order(elements, sofar.argv.len() == 0),
    ensures
        parse_elements(ts, pos, sofar) == Ok::<(CommandParts, int), ParsingErrorView>(
            (add_elements(sofar, elements), pos + spell_elements(elements).len()),
        ),
    decreases elements.len(),
{
    if elements.len() == 0 {
    } else {
        let element = elements[0];
        let rest = elements.skip(1);
        assert(seq![element] + rest =~= elements);
        lemma_spelled_element_parses(ts, pos, element, rest, sofar);
        let spelled = spell_element(element);
        lemma_stands_in_parts(ts, pos, spelled, spell_elements(rest));
        assert(ts[pos + 0] == spelled[0]);
        assert(token_at(ts, pos) is Some && token_at(ts, pos) != Some(TokenView::PipeOp));
        let more = add_element(sofar, element);
        assert(in_order(rest, more.argv.len() == 0));
        lemma_spelled_elements_parse(ts, pos + spelled.len(), rest, more);
    }
}

/// The command that elements make.
pub open spec fn command_of(elements: Seq<Element>) -> AstView {
    let parts = add_elements(no_parts(), elements);
    AstView::Command {
        argv: parts.argv,
        assignments: parts.assignments,
        redirects: parts.redirects,
    }
}

/// Adding elements adds to what was gathered.
proof fn lemma_elements_add(sofar: CommandParts, elements: Seq<Element>)
    ensures
        size_of(add_elements(sofar, elements)) == size_of(sofar) + elements.len(),
    decreases elements.len(),
{
    if elements.len() > 0 {
        lemma_elements_add(add_element(sofar, elements[0]), elements.skip(1));
    }
}

/// A command that is spelled at `pos` is read back as it is.
proof fn lemma_spelled_command_parses(ts: Seq<TokenView>, pos: int, elements: Seq<Element>)
    requires
        elements.len() > 0,
        stands_at(ts, pos, spell_elements(elements)),
        command_ends(ts, pos + spell_elements(elements).len()),
        in_order(elements, true),
    ensures
        parse_command(ts, pos) == Ok::<(AstView, int), ParsingErrorView>(
            (command_of(elements), pos + spell_elements(elements).len()),
        ),
{
    lemma_spelled_elements_parse(ts, pos, elements, no_parts());
    lemma_elements_add(no_parts(), elements);
}

/// The tokens that spell the stages of a pipeline after the first: a `|`
/// before each.
pub open spec fn spell_stages(stages: Seq<Seq<Element>>) -> Seq<TokenView>
    decreases stages.len(),
{
    if stages.len() == 0 {
        Seq::empty()
    } else {
        seq![TokenView::PipeOp] + spell_elements(stages[0]) + spell_stages(stages.skip(1))
    }
}

/// The tokens that spell a line: its commands with a `|` between them.
pub open spec fn spell_line(stages: Seq<Seq<Element>>) -> Seq<TokenView> {
    spell_elements(stages[0]) + spell_stages(stages.skip(1))
}

/// The commands that the stages make.
pub open spec fn commands_of(stages: Seq<Seq<Element>>) -> Seq<AstView> {
    stages.map_values(|elements: Seq<Element>| command_of(elements))
}

/// The tree of a line: its command, or the pipeline of its commands where
/// there are several.
pub open spec fn tree_of(stages: Seq<Seq<Element>>) -> AstView {
    if stages.len() == 1 {
        command_of(stages[0])
    } else {
        AstView::Pipeline(commands_of(stages))
    }
}

/// Every stage has elements, in an order that the grammar can tell apart.
pub open spec fn stages_in_order(stages: Seq<Seq<Element>>) -> bool {
    forall|i: int|
        0 <= i < stages.len() ==> (#[trigger] stages[i]).len() > 0 && in_order(stages[i], true)
}

/// The spelling of stages begins with a `|`, if there are stages.
proof fn lemma_stages_begin(stages: Seq<Seq<Element>>)
    requires
        stages.len() > 0,
    ensures
        spell_stages(stages).len() > 0,
        spell_stages(stages)[0] == TokenView::PipeOp,
{
    let pipe = seq![TokenView::PipeOp];
    assert(spell_stages(stages) =~= pipe + (spell_elements(stages[0]) + spell_stages(
        stages.skip(1),
    )));
    assert(pipe[0] == TokenView::PipeOp);
}

/// Where the stages that follow a command are spelled up to the end of
/// the tokens, the command ends.
proof fn lemma_stage_boundary(ts: Seq<TokenView>, pos: int, rest: Seq<Seq<Element>>)
    requires
        stands_at(ts, pos, spell_stages(rest)),
        pos + spell_stages(rest).len() == ts.len(),
    ensures
        command_ends(ts, pos),
{
    if rest.len() > 0 {
        lemma_stages_begin(rest);
        assert(ts[pos + 0] == spell_stages(rest)[0]);
    }
}

/// Stages that are in order stay so without the first.
proof fn lemma_rest_in_order(stages: Seq<Seq<Element>>)
    requires
        stages.len() > 0,
        stages_in_order(stages),
    ensures
        stages[0].len() > 0,
        in_order(stages[0], true),
        stages_in_order(stages.skip(1)),
{
    let rest = stages.skip(1);
    assert forall|i: int| 0 <= i < rest.len() implies (#[trigger] rest[i]).len() > 0 && in_order(
        rest[i],
        true,
    ) by {
        assert(rest[i] == stages[i + 1]);
    }
}

/// The commands of stages are the command of the first and those of the
/// others.
proof fn lemma_commands_unfold(stages: Seq<Seq<Element>>, sofar: Seq<AstView>)
    requires
        stages.len() > 0,
    ensures
        sofar.push(command_of(stages[0])) + commands_of(stages.skip(1)) == sofar + commands_of(
            stages,
        ),
{
    assert(sofar.push(command_of(stages[0])) + commands_of(stages.skip(1)) =~= sofar
        + commands_of(stages));
}

/// The stages that are spelled from `pos` to the end of the tokens are
/// read back as they are.
proof fn lemma_spelled_stages_parse(
    ts: Seq<TokenView>,
    pos: int,
    stages: Seq<Seq<Element>>,
    sofar: Seq<AstView>,
)
    requires
        stands_at(ts, pos, spell_stages(stages)),
        pos + spell_stages(stages).len() == ts.len(),
        stages_in_order(stages),
    ensures
        parse_stages(ts, pos, sofar) == Ok::<(Seq<AstView>, int), ParsingErrorView>(
            (sofar + commands_of(stages), ts.len() as int),
        ),
    decreases stages.len(),
{
    if stages.len() == 0 {
        assert(sofar + commands_of(stages) =~= sofar);
    } else {
        let first = stages[0];
        let rest = stages.skip(1);
        let pipe = seq![TokenView::PipeOp];
        lemma_stages_begin(stages);
        assert(ts[pos + 0] == spell_stages(stages)[0]);
        assert(spell_stages(stages) =~= pipe + (spell_elements(first) + spell_stages(rest)));
        lemma_stands_in_parts(ts, pos, pipe, spell_elements(first) + spell_stages(rest));
        lemma_stands_in_parts(ts, pos + 1, spell_elements(first), spell_stages(rest));
        let after = pos + 1 + spell_elements(first).len();
        lemma_stage_boundary(ts, after, rest);
        lemma_rest_in_order(stages);
        lemma_spelled_command_parses(ts, pos + 1, first);
        lemma_elements_begin(first);
        lemma_spelled_stages_parse(ts, after, rest, sofar.push(command_of(first)));
        lemma_commands_unfold(stages, sofar);
    }
}

/// A line that the grammar spells is parsed without error, and parsed back
/// into the tree that was spelled: for every line of one or more stages,
/// each with one or more elements in an order that the grammar can tell
/// apart, the tokens of the line yield the tree of the line.
pub proof fn lemma_spelled_line_parses(stages: Seq<Seq<Element>>)
    requires
        stages.len() > 0,
        stages_in_order(stages),
    ensures
        parse(spell_line(stages)) == Ok::<AstView, ParsingErrorView>(tree_of(stages)),
{
    let ts = spell_line(stages);
    let first = stages[0];
    let rest = stages.skip(1);
    assert(stands_at(ts, 0, spell_elements(first) + spell_stages(rest)));
    lemma_stands_in_parts(ts, 0, spell_elements(first), spell_stages(rest));
    let after = spell_elements(first).len() as int;
    lemma_stage_boundary(ts, after, rest);
    lemma_rest_in_order(stages);
    lemma_spelled_command_parses(ts, 0, first);
    lemma_spelled_stages_parse(ts, after, rest, seq![command_of(first)]);
    lemma_commands_unfold(stages, Seq::<AstView>::empty());
    assert(Seq::<AstView>::empty().push(command_of(first)) =~= seq![command_of(first)]);
    assert(Seq::<AstView>::empty() + commands_of(stages) =~= commands_of(stages));
}

} // verus!
