//! What holds of the lexer on every line.
use crate::lexer::{
    char_at, is_blank, lex, lex_initial, lex_run, lex_step, operator_of, starts_name, LexMode,
    LexState, LexingError, TokenView, WordPartView,
};
use vstd::prelude::*;

verus! {

// ---------------------------------------------------------------------------
// The mode alone
// ---------------------------------------------------------------------------

/// One step of the machine, told of the mode alone: where the machine goes
/// on the character `c`, and whether it also takes the character `next`
/// after it.
pub open spec fn mode_step(mode: LexMode, c: char, next: Option<char>) -> (LexMode, bool) {
    match mode {
        LexMode::Start | LexMode::Word => {
            if c == ' ' || c == '\t' || c == '|' || c == '=' || c == '/' || c == '<' || c == '>' {
                (LexMode::Start, false)
            } else if c == '\'' {
                (LexMode::SingleQuote, false)
            } else if c == '"' {
                (LexMode::DoubleQuote, false)
            } else if c == '$' && next == Some('(') {
                (LexMode::CmdSubst { depth: 1, quoted: false }, true)
            } else if c == '$' && next == Some('{') {
                (LexMode::ParamSubst { depth: 1, quoted: false }, true)
            } else {
                (LexMode::Word, false)
            }
        },
        LexMode::SingleQuote => if c == '\'' {
            (LexMode::Word, false)
        } else {
            (LexMode::SingleQuote, false)
        },
        LexMode::DoubleQuote => if c == '"' {
            (LexMode::Word, false)
        } else if c == '$' && next == Some('(') {
            (LexMode::CmdSubst { depth: 1, quoted: true }, true)
        } else if c == '$' && next == Some('{') {
            (LexMode::ParamSubst { depth: 1, quoted: true }, true)
        } else {
            (LexMode::DoubleQuote, false)
        },
        LexMode::CmdSubst { depth, quoted } => if c == '(' {
            (LexMode::CmdSubst { depth: depth + 1, quoted }, false)
        } else if c == ')' && depth <= 1 {
            (
                if quoted {
                    LexMode::DoubleQuote
                } else {
                    LexMode::Word
                },
                false,
            )
        } else if c == ')' {
            (LexMode::CmdSubst { depth: (depth - 1) as nat, quoted }, false)
        } else {
            (mode, false)
        },
        LexMode::ParamSubst { depth, quoted } => if c == '{' {
            (LexMode::ParamSubst { depth: depth + 1, quoted }, false)
        } else if c == '}' && depth <= 1 {
            (
                if quoted {
                    LexMode::DoubleQuote
                } else {
                    LexMode::Word
                },
                false,
            )
        } else if c == '}' {
            (LexMode::ParamSubst { depth: (depth - 1) as nat, quoted }, false)
        } else {
            (mode, false)
        },
    }
}

/// The mode that the machine is in at the end of `input`, started in
/// `mode` at position `pos`.
pub open spec fn mode_run(input: Seq<char>, pos: int, mode: LexMode) -> LexMode
    decreases input.len() - pos,
{
    if 0 <= pos < input.len() {
        let (after, skipped) = mode_step(mode, input[pos], char_at(input, pos + 1));
        mode_run(
            input,
            if skipped {
                pos + 2
            } else {
                pos + 1
            },
            after,
        )
    } else {
        mode
    }
}

/// Every quote and every substitution that the line opens, it closes: the
/// machine ends between words or in an unquoted word.
pub open spec fn balanced(line: Seq<char>) -> bool {
    mode_run(line, 0, LexMode::Start) is Start || mode_run(line, 0, LexMode::Start) is Word
}

/// Where the machine goes depends on its mode and the characters alone, not
/// on the text and the tokens that it has gathered.
pub proof fn lemma_step_mode(st: LexState, c: char, next: Option<char>)
    ensures
        lex_step(st, c, next).0.mode == mode_step(st.mode, c, next).0,
        lex_step(st, c, next).1 == mode_step(st.mode, c, next).1,
{
}

/// The mode at the end of a run is that of the run of the mode alone.
pub proof fn lemma_run_mode(input: Seq<char>, pos: int, st: LexState)
    ensures
        lex_run(input, pos, st).mode == mode_run(input, pos, st.mode),
    decreases input.len() - pos,
{
    if 0 <= pos < input.len() {
        let next = char_at(input, pos + 1);
        lemma_step_mode(st, input[pos], next);
        let (after, skipped) = lex_step(st, input[pos], next);
        lemma_run_mode(
            input,
            if skipped {
                pos + 2
            } else {
                pos + 1
            },
            after,
        );
    }
}

/// A line yields tokens if and only if it is balanced; if it is not, the
/// error names what the line leaves open.
pub proof fn lemma_lex_succeeds_iff_balanced(line: Seq<char>)
    ensures
        lex(line) is Ok <==> balanced(line),
        lex(line) matches Err(e) ==> e == match mode_run(line, 0, LexMode::Start) {
            LexMode::CmdSubst { .. } => LexingError::UnfinishedCmdSubst,
            LexMode::ParamSubst { .. } => LexingError::UnfinishedParamSubst,
            _ => LexingError::UnfinishedQuote,
        },
{
    lemma_run_mode(line, 0, lex_initial());
}

/// A character that opens or closes nothing.
pub open spec fn is_plain(c: char) -> bool {
    c != '\'' && c != '"' && c != '$'
}

/// From between words or inside a word, plain characters lead nowhere
/// else.
proof fn lemma_plain_stays_open(input: Seq<char>, pos: int, mode: LexMode)
    requires
        mode is Start || mode is Word,
        forall|i: int| pos <= i < input.len() ==> is_plain(#[trigger] input[i]),
    ensures
        mode_run(input, pos, mode) is Start || mode_run(input, pos, mode) is Word,
    decreases input.len() - pos,
{
    if 0 <= pos < input.len() {
        assert(is_plain(input[pos]));
        let (after, skipped) = mode_step(mode, input[pos], char_at(input, pos + 1));
        lemma_plain_stays_open(input, pos + 1, after);
    }
}

/// A line without quotes and without `$` always yields tokens.
pub proof fn lemma_plain_line_lexes(line: Seq<char>)
    requires
        forall|i: int| 0 <= i < line.len() ==> is_plain(#[trigger] line[i]),
    ensures
        lex(line) is Ok,
{
    lemma_plain_stays_open(line, 0, LexMode::Start);
    lemma_lex_succeeds_iff_balanced(line);
}

// ---------------------------------------------------------------------------
// A quote that is never closed
// ---------------------------------------------------------------------------

/// The machine looks at the character after the current one only to tell
/// `$(` and `${` from a `$` alone.
proof fn lemma_step_lookahead(st: LexState, c: char, next: Option<char>, other: Option<char>)
    requires
        next != Some('(') && next != Some('{'),
        other != Some('(') && other != Some('{'),
    ensures
        lex_step(st, c, next) == lex_step(st, c, other),
        !lex_step(st, c, next).1,
{
}

/// Running over a line and what follows it is running over the line and
/// then over what follows, unless what follows begins with a bracket that
/// a `$` at the end of the line could take.
proof fn lemma_run_splits(head: Seq<char>, tail: Seq<char>, pos: int, st: LexState)
    requires
        0 <= pos <= head.len(),
        tail.len() > 0 ==> tail[0] != '(' && tail[0] != '{',
    ensures
        lex_run(head + tail, pos, st) == lex_run(
            head + tail,
            head.len() as int,
            lex_run(head, pos, st),
        ),
    decreases head.len() - pos,
{
    let whole = head + tail;
    if pos < head.len() {
        assert(whole[pos] == head[pos]);
        let next_in_head = char_at(head, pos + 1);
        let next_in_whole = char_at(whole, pos + 1);
        if pos + 1 < head.len() {
            assert(whole[pos + 1] == head[pos + 1]);
            assert(next_in_head == next_in_whole);
            let (after, skipped) = lex_step(st, head[pos], next_in_head);
            lemma_run_splits(
                head,
                tail,
                if skipped {
                    pos + 2
                } else {
                    pos + 1
                },
                after,
            );
        } else {
            if tail.len() > 0 {
                assert(whole[pos + 1] == tail[0]);
            }
            lemma_step_lookahead(st, head[pos], next_in_head, next_in_whole);
            let (after, skipped) = lex_step(st, head[pos], next_in_head);
            lemma_run_splits(head, tail, pos + 1, after);
        }
    }
}

/// Inside single quotes, no character but a quote leads out.
proof fn lemma_single_quote_stays(input: Seq<char>, pos: int, st: LexState)
    requires
        st.mode is SingleQuote,
        forall|i: int| pos <= i < input.len() && 0 <= i ==> #[trigger] input[i] != '\'',
    ensures
        lex_run(input, pos, st).mode is SingleQuote,
    decreases input.len() - pos,
{
    if 0 <= pos < input.len() {
        assert(input[pos] != '\'');
        let (after, skipped) = lex_step(st, input[pos], char_at(input, pos + 1));
        lemma_single_quote_stays(input, pos + 1, after);
    }
}

/// A single quote that is opened and never closed is an error, whatever
/// stands before it and after it: where `head` yields tokens and `tail`
/// holds no single quote, the line `head'tail` yields the error of the
/// unfinished quote.
pub proof fn lemma_unterminated_single_quote(head: Seq<char>, tail: Seq<char>)
    requires
        lex(head) is Ok,
        !tail.contains('\''),
    ensures
        lex(head + seq!['\''] + tail) == Err::<Seq<TokenView>, LexingError>(
            LexingError::UnfinishedQuote,
        ),
{
    let rest = seq!['\''] + tail;
    let line = head + rest;
    assert(line =~= head + seq!['\''] + tail);
    lemma_run_splits(head, rest, 0, lex_initial());
    let reached = lex_run(head, 0, lex_initial());
    assert(reached.mode is Start || reached.mode is Word);
    let at = head.len() as int;
    assert(line[at] == '\'');
    let (opened, skipped) = lex_step(reached, line[at], char_at(line, at + 1));
    assert(opened.mode is SingleQuote);
    assert(!skipped);
    assert forall|i: int| at + 1 <= i < line.len() && 0 <= i implies #[trigger] line[i] != '\'' by {
        assert(line[i] == tail[i - at - 1]);
        assert(tail.contains(tail[i - at - 1]));
    }
    lemma_single_quote_stays(line, at + 1, opened);
}

// ---------------------------------------------------------------------------
// What stands in quotes is text
// ---------------------------------------------------------------------------

/// Inside single quotes, characters that are no single quote are gathered
/// as they come.
proof fn lemma_single_quote_gathers(input: Seq<char>, pos: int, end: int, st: LexState)
    requires
        0 <= pos <= end <= input.len(),
        st.mode is SingleQuote,
        forall|i: int| pos <= i < end ==> #[trigger] input[i] != '\'',
    ensures
        lex_run(input, pos, st) == lex_run(
            input,
            end,
            LexState { buffer: st.buffer + input.subrange(pos, end), ..st },
        ),
    decreases end - pos,
{
    if pos < end {
        assert(input[pos] != '\'');
        let (after, skipped) = lex_step(st, input[pos], char_at(input, pos + 1));
        assert(!skipped);
        lemma_single_quote_gathers(input, pos + 1, end, after);
        assert(st.buffer.push(input[pos]) + input.subrange(pos + 1, end) =~= st.buffer
            + input.subrange(pos, end));
    } else {
        assert(st.buffer + input.subrange(pos, end) =~= st.buffer);
    }
}

/// What stands in single quotes is text, whatever it is: where `text`
/// holds no single quote, the line `'text'` is one word of one literal
/// part, which is `text`.
pub proof fn lemma_single_quoted_is_literal(text: Seq<char>)
    requires
        !text.contains('\''),
    ensures
        lex(seq!['\''] + text + seq!['\'']) == Ok::<Seq<TokenView>, LexingError>(
            seq![TokenView::Word(seq![WordPartView::Literal(text)])],
        ),
{
    let line = seq!['\''] + text + seq!['\''];
    let end: int = text.len() as int + 1;
    assert(line[0] == '\'');
    assert(line[end] == '\'');
    assert forall|i: int| 1 <= i < end implies #[trigger] line[i] != '\'' by {
        assert(line[i] == text[i - 1]);
        assert(text.contains(text[i - 1]));
    }
    let (opened, skipped) = lex_step(lex_initial(), line[0], char_at(line, 1));
    assert(!skipped);
    assert(opened == LexState { mode: LexMode::SingleQuote, ..lex_initial() });
    lemma_single_quote_gathers(line, 1, end, opened);
    assert(line.subrange(1, end) =~= text);
    assert(Seq::<char>::empty() + text =~= text);
    let full = LexState { buffer: text, ..opened };
    let (closed, skipped_again) = lex_step(full, line[end], char_at(line, end + 1));
    assert(!skipped_again);
    assert(lex_run(line, end, full) == lex_run(line, end + 1, closed));
    assert(lex_run(line, end + 1, closed) == closed);
    assert(closed.word =~= seq![WordPartView::Literal(text)]);
    assert(closed.out.push(TokenView::Word(closed.word)) =~= seq![
        TokenView::Word(seq![WordPartView::Literal(text)]),
    ]);
}

/// A character that stands for itself inside double quotes: not the
/// quote, and not a `$` before a bracket.
pub open spec fn is_text_in_double_quotes(c: char, next: Option<char>) -> bool {
    c != '"' && !(c == '$' && (next == Some('(') || next == Some('{')))
}

/// Inside double quotes, characters that stand for themselves are
/// gathered as they come.
proof fn lemma_double_quote_gathers(input: Seq<char>, pos: int, end: int, st: LexState)
    requires
        0 <= pos <= end <= input.len(),
        st.mode is DoubleQuote,
        forall|i: int|
            pos <= i < end ==> is_text_in_double_quotes(#[trigger] input[i], char_at(input, i + 1)),
    ensures
        lex_run(input, pos, st) == lex_run(
            input,
            end,
            LexState { buffer: st.buffer + input.subrange(pos, end), ..st },
        ),
    decreases end - pos,
{
    if pos < end {
        assert(is_text_in_double_quotes(input[pos], char_at(input, pos + 1)));
        let (after, skipped) = lex_step(st, input[pos], char_at(input, pos + 1));
        assert(!skipped);
        lemma_double_quote_gathers(input, pos + 1, end, after);
        assert(st.buffer.push(input[pos]) + input.subrange(pos + 1, end) =~= st.buffer
            + input.subrange(pos, end));
    } else {
        assert(st.buffer + input.subrange(pos, end) =~= st.buffer);
    }
}

/// What stands in double quotes is text, but for substitutions: where
/// `text` is not empty and holds no double quote and no `$` before a
/// bracket, the line `"text"` is one word of one literal part, which is
/// `text`. A `$` before a name is text like any other.
pub proof fn lemma_double_quoted_is_literal(text: Seq<char>)
    requires
        text.len() > 0,
        forall|i: int|
            0 <= i < text.len() ==> is_text_in_double_quotes(
                #[trigger] text[i],
                char_at(text, i + 1),
            ),
    ensures
        lex(seq!['"'] + text + seq!['"']) == Ok::<Seq<TokenView>, LexingError>(
            seq![TokenView::Word(seq![WordPartView::Literal(text)])],
        ),
{
    let line = seq!['"'] + text + seq!['"'];
    let end: int = text.len() as int + 1;
    assert(line[0] == '"');
    assert(line[end] == '"');
    assert forall|i: int| 1 <= i < end implies is_text_in_double_quotes(
        #[trigger] line[i],
        char_at(line, i + 1),
    ) by {
        assert(line[i] == text[i - 1]);
        assert(is_text_in_double_quotes(text[i - 1], char_at(text, i)));
        if i + 1 < end {
            assert(line[i + 1] == text[i]);
        }
    }
    let (opened, skipped) = lex_step(lex_initial(), line[0], char_at(line, 1));
    assert(!skipped);
    assert(opened == LexState { mode: LexMode::DoubleQuote, ..lex_initial() });
    lemma_double_quote_gathers(line, 1, end, opened);
    assert(line.subrange(1, end) =~= text);
    assert(Seq::<char>::empty() + text =~= text);
    let full = LexState { buffer: text, ..opened };
    let (closed, skipped_again) = lex_step(full, line[end], char_at(line, end + 1));
    assert(!skipped_again);
    assert(lex_run(line, end, full) == lex_run(line, end + 1, closed));
    assert(lex_run(line, end + 1, closed) == closed);
    assert(closed.word =~= seq![WordPartView::Literal(text)]);
    assert(closed.out.push(TokenView::Word(closed.word)) =~= seq![
        TokenView::Word(seq![WordPartView::Literal(text)]),
    ]);
}

// ---------------------------------------------------------------------------
// Lines of plain words and operators
// ---------------------------------------------------------------------------

/// Running over what follows a line, from where the line ends, is running
/// over what follows alone.
proof fn lemma_run_shifts(head: Seq<char>, tail: Seq<char>, pos: int, st: LexState)
    requires
        0 <= pos,
    ensures
        lex_run(head + tail, head.len() + pos, st) == lex_run(tail, pos, st),
    decreases tail.len() - pos,
{
    let whole = head + tail;
    if pos < tail.len() {
        assert(whole[head.len() + pos] == tail[pos]);
        if pos + 1 < tail.len() {
            assert(whole[head.len() + pos + 1] == tail[pos + 1]);
        }
        assert(char_at(whole, head.len() + pos + 1) == char_at(tail, pos + 1));
        let (after, skipped) = lex_step(st, tail[pos], char_at(tail, pos + 1));
        if skipped {
            lemma_run_shifts(head, tail, pos + 2, after);
        } else {
            lemma_run_shifts(head, tail, pos + 1, after);
        }
    }
}

/// Running over a line and what follows it is running over the line, and
/// then over what follows from the state that was reached, unless what
/// follows begins with a bracket that a `$` at the end of the line could
/// take.
pub proof fn lemma_run_composes(head: Seq<char>, tail: Seq<char>, st: LexState)
    requires
        tail.len() > 0 ==> tail[0] != '(' && tail[0] != '{',
    ensures
        lex_run(head + tail, 0, st) == lex_run(tail, 0, lex_run(head, 0, st)),
{
    lemma_run_splits(head, tail, 0, st);
    lemma_run_shifts(head, tail, 0, lex_run(head, 0, st));
}

/// A character of which plain words are made: no blank, no operator, no
/// quote and no `$`.
pub open spec fn is_ordinary(c: char) -> bool {
    !is_blank(c) && operator_of(c) is None && c != '\'' && c != '"' && c != '$'
}

/// A word of ordinary characters, at least one.
pub open spec fn is_plain_word(word: Seq<char>) -> bool {
    word.len() > 0 && forall|i: int| 0 <= i < word.len() ==> is_ordinary(#[trigger] word[i])
}

/// Between words or inside a word, ordinary characters are gathered as
/// they come.
proof fn lemma_run_gathers(word: Seq<char>, pos: int, st: LexState)
    requires
        0 <= pos < word.len(),
        st.mode is Start || st.mode is Word,
        forall|i: int| pos <= i < word.len() ==> is_ordinary(#[trigger] word[i]),
    ensures
        lex_run(word, pos, st) == (LexState {
            mode: LexMode::Word,
            buffer: st.buffer + word.subrange(pos, word.len() as int),
            ..st
        }),
    decreases word.len() - pos,
{
    assert(is_ordinary(word[pos]));
    let (after, skipped) = lex_step(st, word[pos], char_at(word, pos + 1));
    assert(!skipped);
    assert(after == LexState { mode: LexMode::Word, buffer: st.buffer.push(word[pos]), ..st });
    assert(lex_run(word, pos, st) == lex_run(word, pos + 1, after));
    if pos + 1 < word.len() {
        lemma_run_gathers(word, pos + 1, after);
        assert(st.buffer.push(word[pos]) + word.subrange(pos + 1, word.len() as int)
            =~= st.buffer + word.subrange(pos, word.len() as int));
    } else {
        assert(lex_run(word, pos + 1, after) == after);
        assert(st.buffer.push(word[pos]) =~= st.buffer + word.subrange(pos, word.len() as int));
    }
}

/// What stands between the blanks of a plain line: a plain word or an
/// operator.
pub enum Item {
    Word(Seq<char>),
    Operator(char),
}

/// An item that is a plain word or one of the operators.
pub open spec fn item_is_plain(item: Item) -> bool {
    match item {
        Item::Word(word) => is_plain_word(word),
        Item::Operator(c) => operator_of(c) is Some,
    }
}

/// The characters of an item.
pub open spec fn item_text(item: Item) -> Seq<char> {
    match item {
        Item::Word(word) => word,
        Item::Operator(c) => seq![c],
    }
}

/// The token of an item.
pub open spec fn item_token(item: Item) -> TokenView {
    match item {
        Item::Word(word) => TokenView::Word(seq![WordPartView::Literal(word)]),
        Item::Operator(c) => operator_of(c)->0,
    }
}

/// The line of the items: their characters, with a space between each
/// item and the next.
pub open spec fn line_of(items: Seq<Item>) -> Seq<char>
    decreases items.len(),
{
    if items.len() == 0 {
        Seq::empty()
    } else if items.len() == 1 {
        item_text(items[0])
    } else {
        line_of(items.drop_last()) + (seq![' '] + item_text(items.last()))
    }
}

/// The tokens of the items, one for one.
pub open spec fn tokens_of(items: Seq<Item>) -> Seq<TokenView> {
    items.map_values(|item: Item| item_token(item))
}

/// The state of the machine at the end of the line of the items: the last
/// item is pending if it is a word, and the tokens of the others are
/// emitted.
pub open spec fn state_after(items: Seq<Item>) -> LexState {
    if items.len() == 0 {
        lex_initial()
    } else {
        match items.last() {
            Item::Word(word) => LexState {
                mode: LexMode::Word,
                buffer: word,
                word: Seq::empty(),
                out: tokens_of(items.drop_last()),
            },
            Item::Operator(_) => LexState {
                mode: LexMode::Start,
                buffer: Seq::empty(),
                word: Seq::empty(),
                out: tokens_of(items),
            },
        }
    }
}

/// From a state between items, the machine runs over one more item, after
/// a blank if it is not the first, into the state after that item.
proof fn lemma_run_over_item(before: Seq<Item>, item: Item)
    requires
        forall|i: int| 0 <= i < before.len() ==> item_is_plain(#[trigger] before[i]),
        item_is_plain(item),
    ensures
        lex_run(
            if before.len() == 0 {
                item_text(item)
            } else {
                seq![' '] + item_text(item)
            },
            0,
            state_after(before),
        ) == state_after(before.push(item)),
{
    let items = before.push(item);
    assert(items.drop_last() =~= before);
    assert(items.last() == item);
    let text = item_text(item);
    let start = state_after(before);
    // The state after the blank, or the state at the start of the line.
    let ready = LexState {
        mode: LexMode::Start,
        buffer: Seq::empty(),
        word: Seq::empty(),
        out: tokens_of(before),
    };
    if before.len() == 0 {
        assert(tokens_of(before) =~= Seq::<TokenView>::empty());
        assert(start == ready);
    } else {
        let tail = seq![' '] + text;
        assert(tail[0] == ' ');
        assert(tail.len() >= 2);
        let (after_blank, skipped) = lex_step(start, ' ', char_at(tail, 1));
        assert(before.drop_last().push(before.last()) =~= before);
        assert(item_is_plain(before.last()));
        assert(tokens_of(before) =~= tokens_of(before.drop_last()).push(item_token(before.last())));
        match before.last() {
            Item::Word(word) => {
                assert(is_ordinary(word[0]));
                assert(Seq::<WordPartView>::empty().push(WordPartView::Literal(word)) =~= seq![
                    WordPartView::Literal(word),
                ]);
            },
            Item::Operator(_) => {},
        }
        assert(after_blank == ready);
        assert(!skipped);
        lemma_run_shifts(seq![' '], text, 0, ready);
        assert(lex_run(tail, 0, start) == lex_run(text, 0, ready));
    }
    match item {
        Item::Word(word) => {
            lemma_run_gathers(word, 0, ready);
            assert(word.subrange(0, word.len() as int) =~= word);
            assert(Seq::<char>::empty() + word =~= word);
        },
        Item::Operator(c) => {
            assert(text.len() == 1 && text[0] == c);
            let (after, skipped) = lex_step(ready, c, char_at(text, 1));
            assert(tokens_of(items) =~= tokens_of(before).push(operator_of(c)->0));
            assert(lex_run(text, 1, after) == after);
        },
    }
}

/// The machine runs over the line of plain items into the state after
/// them.
proof fn lemma_run_over_items(items: Seq<Item>)
    requires
        forall|i: int| 0 <= i < items.len() ==> item_is_plain(#[trigger] items[i]),
    ensures
        lex_run(line_of(items), 0, lex_initial()) == state_after(items),
    decreases items.len(),
{
    if items.len() == 0 {
    } else if items.len() == 1 {
        let before = Seq::<Item>::empty();
        assert(before.push(items[0]) =~= items);
        lemma_run_over_item(before, items[0]);
    } else {
        let before = items.drop_last();
        assert(before.push(items.last()) =~= items);
        assert forall|i: int| 0 <= i < before.len() implies item_is_plain(#[trigger] before[i]) by {
            assert(before[i] == items[i]);
        }
        lemma_run_over_items(before);
        let tail = seq![' '] + item_text(items.last());
        assert(tail[0] == ' ');
        lemma_run_composes(line_of(before), tail, lex_initial());
        lemma_run_over_item(before, items.last());
    }
}

/// A line of plain words and operators with single spaces between them
/// yields their tokens: a word of one literal part for each word, and its
/// token for each operator, in the order of the line.
pub proof fn lemma_plain_items_lex(items: Seq<Item>)
    requires
        forall|i: int| 0 <= i < items.len() ==> item_is_plain(#[trigger] items[i]),
    ensures
        lex(line_of(items)) == Ok::<Seq<TokenView>, LexingError>(tokens_of(items)),
{
    lemma_run_over_items(items);
    if items.len() == 0 {
        assert(tokens_of(items) =~= Seq::<TokenView>::empty());
    } else {
        assert(items.drop_last().push(items.last()) =~= items);
        assert(tokens_of(items) =~= tokens_of(items.drop_last()).push(item_token(items.last())));
        match items.last() {
            Item::Word(word) => {
                assert(item_is_plain(items.last()));
                assert(is_ordinary(word[0]));
                assert(Seq::<WordPartView>::empty().push(WordPartView::Literal(word)) =~= seq![
                    WordPartView::Literal(word),
                ]);
            },
            Item::Operator(_) => {},
        }
    }
}

// ---------------------------------------------------------------------------
// Substitutions
// ---------------------------------------------------------------------------

/// A `$` before a name is a reference to the parameter of that name:
/// where `name` is a plain word that begins with a letter or an
/// underscore, the line `$name` is one word of one part, the parameter
/// `name`.
pub proof fn lemma_bare_parameter(name: Seq<char>)
    requires
        is_plain_word(name),
        starts_name(name[0]),
        name[0] != '(' && name[0] != '{',
    ensures
        lex(seq!['$'] + name) == Ok::<Seq<TokenView>, LexingError>(
            seq![TokenView::Word(seq![WordPartView::ParamSubst(name)])],
        ),
{
    let line = seq!['$'] + name;
    assert(line[0] == '$');
    assert(line[1] == name[0]);
    let (begun, skipped) = lex_step(lex_initial(), line[0], char_at(line, 1));
    assert(!skipped);
    assert(begun == LexState { mode: LexMode::Word, buffer: seq!['$'], ..lex_initial() });
    assert forall|i: int| 1 <= i < line.len() implies is_ordinary(#[trigger] line[i]) by {
        assert(line[i] == name[i - 1]);
    }
    lemma_run_gathers(line, 1, begun);
    assert(seq!['$'] + line.subrange(1, line.len() as int) =~= line);
    assert(line.skip(1) =~= name);
    let reached = lex_run(line, 0, lex_initial());
    assert(reached == LexState { mode: LexMode::Word, buffer: line, ..lex_initial() });
    assert(Seq::<WordPartView>::empty().push(WordPartView::ParamSubst(name)) =~= seq![
        WordPartView::ParamSubst(name),
    ]);
    assert(Seq::<TokenView>::empty().push(TokenView::Word(seq![WordPartView::ParamSubst(name)]))
        =~= seq![TokenView::Word(seq![WordPartView::ParamSubst(name)])]);
}

/// Inside `${`, characters that are no braces are gathered as they come.
proof fn lemma_braces_gather(input: Seq<char>, pos: int, end: int, st: LexState)
    requires
        0 <= pos <= end <= input.len(),
        st.mode is ParamSubst,
        forall|i: int| pos <= i < end ==> #[trigger] input[i] != '{' && input[i] != '}',
    ensures
        lex_run(input, pos, st) == lex_run(
            input,
            end,
            LexState { buffer: st.buffer + input.subrange(pos, end), ..st },
        ),
    decreases end - pos,
{
    if pos < end {
        assert(input[pos] != '{' && input[pos] != '}');
        let (after, skipped) = lex_step(st, input[pos], char_at(input, pos + 1));
        assert(!skipped);
        lemma_braces_gather(input, pos + 1, end, after);
        assert(st.buffer.push(input[pos]) + input.subrange(pos + 1, end) =~= st.buffer
            + input.subrange(pos, end));
    } else {
        assert(st.buffer + input.subrange(pos, end) =~= st.buffer);
    }
}

/// Inside `$(`, characters that are no parentheses are gathered as they
/// come.
proof fn lemma_parentheses_gather(input: Seq<char>, pos: int, end: int, st: LexState)
    requires
        0 <= pos <= end <= input.len(),
        st.mode is CmdSubst,
        forall|i: int| pos <= i < end ==> #[trigger] input[i] != '(' && input[i] != ')',
    ensures
        lex_run(input, pos, st) == lex_run(
            input,
            end,
            LexState { buffer: st.buffer + input.subrange(pos, end), ..st },
        ),
    decreases end - pos,
{
    if pos < end {
        assert(input[pos] != '(' && input[pos] != ')');
        let (after, skipped) = lex_step(st, input[pos], char_at(input, pos + 1));
        assert(!skipped);
        lemma_parentheses_gather(input, pos + 1, end, after);
        assert(st.buffer.push(input[pos]) + input.subrange(pos + 1, end) =~= st.buffer
            + input.subrange(pos, end));
    } else {
        assert(st.buffer + input.subrange(pos, end) =~= st.buffer);
    }
}

/// What stands between `${` and `}` is the body of a parameter
/// substitution, whatever it is: where `body` holds no brace, the line
/// `${body}` is one word of one part, the parameter `body`.
pub proof fn lemma_braced_parameter(body: Seq<char>)
    requires
        !body.contains('{'),
        !body.contains('}'),
    ensures
        lex(seq!['$', '{'] + body + seq!['}']) == Ok::<Seq<TokenView>, LexingError>(
            seq![TokenView::Word(seq![WordPartView::ParamSubst(body)])],
        ),
{
    let line = seq!['$', '{'] + body + seq!['}'];
    let end: int = body.len() as int + 2;
    assert(line[0] == '$');
    assert(line[1] == '{');
    assert(line[end] == '}');
    assert forall|i: int| 2 <= i < end implies #[trigger] line[i] != '{' && line[i] != '}' by {
        assert(line[i] == body[i - 2]);
        assert(body.contains(body[i - 2]));
    }
    let (opened, skipped) = lex_step(lex_initial(), line[0], char_at(line, 1));
    assert(skipped);
    assert(opened == LexState {
        mode: LexMode::ParamSubst { depth: 1, quoted: false },
        ..lex_initial()
    });
    lemma_braces_gather(line, 2, end, opened);
    assert(line.subrange(2, end) =~= body);
    assert(Seq::<char>::empty() + body =~= body);
    let full = LexState { buffer: body, ..opened };
    let (closed, skipped_again) = lex_step(full, line[end], char_at(line, end + 1));
    assert(!skipped_again);
    assert(lex_run(line, end, full) == lex_run(line, end + 1, closed));
    assert(lex_run(line, end + 1, closed) == closed);
    assert(closed.word =~= seq![WordPartView::ParamSubst(body)]);
    assert(closed.out.push(TokenView::Word(closed.word)) =~= seq![
        TokenView::Word(seq![WordPartView::ParamSubst(body)]),
    ]);
}

/// What stands between `$(` and `)` is the body of a command
/// substitution, whatever it is: where `body` holds no parenthesis, the
/// line `$(body)` is one word of one part, the command `body`.
pub proof fn lemma_command_substitution(body: Seq<char>)
    requires
        !body.contains('('),
        !body.contains(')'),
    ensures
        lex(seq!['$', '('] + body + seq![')']) == Ok::<Seq<TokenView>, LexingError>(
            seq![TokenView::Word(seq![WordPartView::CmdSubst(body)])],
        ),
{
    let line = seq!['$', '('] + body + seq![')'];
    let end: int = body.len() as int + 2;
    assert(line[0] == '$');
    assert(line[1] == '(');
    assert(line[end] == ')');
    assert forall|i: int| 2 <= i < end implies #[trigger] line[i] != '(' && line[i] != ')' by {
        assert(line[i] == body[i - 2]);
        assert(body.contains(body[i - 2]));
    }
    let (opened, skipped) = lex_step(lex_initial(), line[0], char_at(line, 1));
    assert(skipped);
    assert(opened == LexState {
        mode: LexMode::CmdSubst { depth: 1, quoted: false },
        ..lex_initial()
    });
    lemma_parentheses_gather(line, 2, end, opened);
    assert(line.subrange(2, end) =~= body);
    assert(Seq::<char>::empty() + body =~= body);
    let full = LexState { buffer: body, ..opened };
    let (closed, skipped_again) = lex_step(full, line[end], char_at(line, end + 1));
    assert(!skipped_again);
    assert(lex_run(line, end, full) == lex_run(line, end + 1, closed));
    assert(lex_run(line, end + 1, closed) == closed);
    assert(closed.word =~= seq![WordPartView::CmdSubst(body)]);
    assert(closed.out.push(TokenView::Word(closed.word)) =~= seq![
        TokenView::Word(seq![WordPartView::CmdSubst(body)]),
    ]);
}

} // verus!
