//! What holds of the lexer and the parser together: a line that is written
//! from a tree, in plain words, is read back as that tree.
use crate::lexer::{lex, LexingError, TokenView};
use crate::lexer_laws::{
    is_plain_word, item_is_plain, item_token, lemma_plain_items_lex, line_of, tokens_of, Item,
};
use crate::parser::{parse, AstView, ParsingErrorView, RedirectKind, WordView};
use crate::parser_laws::{
    lemma_spelled_line_parses, spell_element, spell_elements, spell_line, spell_stages,
    stages_in_order, tree_of, Element,
};
use vstd::prelude::*;

verus! {

/// A word that is written as it is: a literal of ordinary characters.
pub open spec fn word_is_plain(word: WordView) -> bool {
    word matches WordView::Literal(text) && is_plain_word(text)
}

/// An element whose name and words are written as they are.
pub open spec fn element_is_plain(element: Element) -> bool {
    match element {
        Element::Assignment { name, value } => is_plain_word(name) && (value matches Some(word)
            ==> word_is_plain(word)),
        Element::Argument(word) => word_is_plain(word),
        Element::Redirection { kind, target } => word_is_plain(target),
    }
}

/// The item that writes a plain word.
pub open spec fn word_item(word: WordView) -> Item {
    Item::Word(word->Literal_0)
}

/// The items that write an element.
pub open spec fn element_items(element: Element) -> Seq<Item> {
    match element {
        Element::Assignment { name, value } => match value {
            Some(word) => seq![Item::Word(name), Item::Operator('='), word_item(word)],
            None => seq![Item::Word(name), Item::Operator('=')],
        },
        Element::Argument(word) => seq![word_item(word)],
        Element::Redirection { kind, target } => match kind {
            RedirectKind::Input => seq![Item::Operator('<'), word_item(target)],
            RedirectKind::Output => seq![Item::Operator('>'), word_item(target)],
            RedirectKind::Append => seq![
                Item::Operator('>'),
                Item::Operator('>'),
                word_item(target),
            ],
        },
    }
}

/// The items that write the elements of a command.
pub open spec fn command_items(elements: Seq<Element>) -> Seq<Item>
    decreases elements.len(),
{
    if elements.len() == 0 {
        Seq::empty()
    } else {
        element_items(elements[0]) + command_items(elements.skip(1))
    }
}

/// The items that write the stages of a pipeline after the first.
pub open spec fn stages_items(stages: Seq<Seq<Element>>) -> Seq<Item>
    decreases stages.len(),
{
    if stages.len() == 0 {
        Seq::empty()
    } else {
        seq![Item::Operator('|')] + command_items(stages[0]) + stages_items(stages.skip(1))
    }
}

/// The line that writes the stages: the words and operators of each, with
/// a space after each but the last.
pub open spec fn written(stages: Seq<Seq<Element>>) -> Seq<char> {
    line_of(command_items(stages[0]) + stages_items(stages.skip(1)))
}

/// All elements of all stages are plain.
pub open spec fn stages_are_plain(stages: Seq<Seq<Element>>) -> bool {
    forall|i: int, j: int|
        0 <= i < stages.len() && 0 <= j < stages[i].len() ==> element_is_plain(
            #[trigger] stages[i][j],
        )
}

/// Items are plain, and their tokens are the given ones.
pub open spec fn write(items: Seq<Item>, tokens: Seq<TokenView>) -> bool {
    &&& tokens_of(items) == tokens
    &&& forall|i: int| 0 <= i < items.len() ==> item_is_plain(#[trigger] items[i])
}

/// Items that write tokens, followed by items that write more tokens, write
/// all of them.
proof fn lemma_write_both(
    first: Seq<Item>,
    first_tokens: Seq<TokenView>,
    second: Seq<Item>,
    second_tokens: Seq<TokenView>,
)
    requires
        write(first, first_tokens),
        write(second, second_tokens),
    ensures
        write(first + second, first_tokens + second_tokens),
{
    let both = first + second;
    assert(tokens_of(both) =~= first_tokens + second_tokens) by {
        assert forall|i: int| 0 <= i < both.len() implies tokens_of(both)[i] == (first_tokens
            + second_tokens)[i] by {
            if i < first.len() {
                assert(both[i] == first[i]);
                assert(tokens_of(first)[i] == item_token(first[i]));
            } else {
                assert(both[i] == second[i - first.len()]);
                assert(tokens_of(second)[i - first.len()] == item_token(second[i - first.len()]));
            }
        }
    }
    assert forall|i: int| 0 <= i < both.len() implies item_is_plain(#[trigger] both[i]) by {
        if i < first.len() {
            assert(both[i] == first[i]);
        } else {
            assert(both[i] == second[i - first.len()]);
        }
    }
}

/// The items of a plain element write its tokens.
proof fn lemma_element_is_written(element: Element)
    requires
        element_is_plain(element),
    ensures
        write(element_items(element), spell_element(element)),
{
    let items = element_items(element);
    let tokens = spell_element(element);
    assert(tokens_of(items) =~= tokens) by {
        assert(items.len() == tokens.len());
        assert forall|i: int| 0 <= i < items.len() implies tokens_of(items)[i] == tokens[i] by {
            assert(tokens_of(items)[i] == item_token(items[i]));
        }
    }
}

/// The items of the plain elements of a command write their tokens.
proof fn lemma_command_is_written(elements: Seq<Element>)
    requires
        forall|j: int| 0 <= j < elements.len() ==> element_is_plain(#[trigger] elements[j]),
    ensures
        write(command_items(elements), spell_elements(elements)),
    decreases elements.len(),
{
    if elements.len() == 0 {
        assert(tokens_of(command_items(elements)) =~= spell_elements(elements));
    } else {
        let rest = elements.skip(1);
        assert forall|j: int| 0 <= j < rest.len() implies element_is_plain(#[trigger] rest[j]) by {
            assert(rest[j] == elements[j + 1]);
        }
        lemma_element_is_written(elements[0]);
        lemma_command_is_written(rest);
        lemma_write_both(
            element_items(elements[0]),
            spell_element(elements[0]),
            command_items(rest),
            spell_elements(rest),
        );
    }
}

/// The items of plain stages write their tokens.
proof fn lemma_stages_are_written(stages: Seq<Seq<Element>>)
    requires
        stages_are_plain(stages),
    ensures
        write(stages_items(stages), spell_stages(stages)),
    decreases stages.len(),
{
    if stages.len() == 0 {
        assert(tokens_of(stages_items(stages)) =~= spell_stages(stages));
    } else {
        let rest = stages.skip(1);
        assert(stages_are_plain(rest)) by {
            assert forall|i: int, j: int|
                0 <= i < rest.len() && 0 <= j < rest[i].len() implies element_is_plain(
                #[trigger] rest[i][j],
            ) by {
                assert(rest[i] == stages[i + 1]);
                assert(element_is_plain(stages[i + 1][j]));
            }
        }
        assert forall|j: int| 0 <= j < stages[0].len() implies element_is_plain(
            #[trigger] stages[0][j],
        ) by {}
        let pipe = seq![Item::Operator('|')];
        let pipe_token = seq![TokenView::PipeOp];
        assert(write(pipe, pipe_token)) by {
            assert(tokens_of(pipe) =~= pipe_token);
        }
        lemma_command_is_written(stages[0]);
        lemma_stages_are_written(rest);
        lemma_write_both(pipe, pipe_token, command_items(stages[0]), spell_elements(stages[0]));
        lemma_write_both(
            pipe + command_items(stages[0]),
            pipe_token + spell_elements(stages[0]),
            stages_items(rest),
            spell_stages(rest),
        );
    }
}

/// A line that is written from a tree is read back as that tree.
///
/// For every line of one or more stages, each with one or more elements
/// in an order that the grammar can tell apart, whose names and words are
/// literals of ordinary characters: the text of the line, written with a
/// space between its words and operators, has all its quotes balanced, is
/// split into tokens without error, and its tokens are parsed without
/// error into the tree of the line.
pub proof fn lemma_written_line_is_read_back(stages: Seq<Seq<Element>>)
    requires
        stages.len() > 0,
        stages_in_order(stages),
        stages_are_plain(stages),
    ensures
        lex(written(stages)) == Ok::<Seq<TokenView>, LexingError>(spell_line(stages)),
        parse(spell_line(stages)) == Ok::<AstView, ParsingErrorView>(tree_of(stages)),
{
    let rest = stages.skip(1);
    assert(stages_are_plain(rest)) by {
        assert forall|i: int, j: int|
            0 <= i < rest.len() && 0 <= j < rest[i].len() implies element_is_plain(
            #[trigger] rest[i][j],
        ) by {
            assert(rest[i] == stages[i + 1]);
            assert(element_is_plain(stages[i + 1][j]));
        }
    }
    assert forall|j: int| 0 <= j < stages[0].len() implies element_is_plain(
        #[trigger] stages[0][j],
    ) by {}
    lemma_command_is_written(stages[0]);
    lemma_stages_are_written(rest);
    lemma_write_both(
        command_items(stages[0]),
        spell_elements(stages[0]),
        stages_items(rest),
        spell_stages(rest),
    );
    lemma_plain_items_lex(command_items(stages[0]) + stages_items(rest));
    lemma_spelled_line_parses(stages);
}

} // verus!
