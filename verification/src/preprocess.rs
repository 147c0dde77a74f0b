//! Preprocessing: from a raw line to the tokens that the tree consumes.
//!
//! A line is split at single spaces. Each piece is tried against the
//! filter patterns in their order, and the first that matches replaces it:
//! by the name of its first capture, or by the wildcard if it captured
//! nothing under a name.

use crate::token::{Token, TokenV};
use vstd::prelude::*;

verus! {

/// `grok::Pattern`, a compiled pattern. Nothing is known of what is
/// inside one; it is handed to the calls that match it against a text.
#[verifier::external_type_specification]
#[verifier::external_body]
pub struct ExPattern(grok::Pattern);

/// `grok::Matches`, what a pattern captured in a text that it matched.
/// Nothing is known of what is inside one; it is handed to the calls that
/// read the captures.
#[verifier::external_type_specification]
#[verifier::external_body]
pub struct ExMatches<'a>(grok::Matches<'a>);

/// What `grok::Pattern::match_against` returns for a pattern and a text.
pub uninterp spec fn pattern_match(pattern: grok::Pattern, text: Seq<char>) -> Option<
    grok::Matches<'static>,
>;

/// The name of the first item that `grok::Matches::iter` yields, if it
/// yields any.
pub uninterp spec fn first_capture_name(matches: grok::Matches<'static>) -> Option<Seq<char>>;

/// What `grok::Matches::get` returns for a name.
pub uninterp spec fn capture_named(matches: grok::Matches<'static>, name: Seq<char>) -> Option<
    Seq<char>,
>;

/// `grok::Pattern::match_against`: searches `text` for the compiled
/// pattern. The result depends on the pattern and the text alone; nothing
/// else is claimed of it.
#[verifier::external_body]
fn match_against<'a>(pattern: &'a grok::Pattern, text: &'a str) -> (matches: Option<
    grok::Matches<'a>,
>)
    ensures
        matches == pattern_match(*pattern, text@),
{
    pattern.match_against(text)
}

/// The first item of `grok::Matches::iter`, of which the name is kept: the
/// captures come in the order of their names, those that took no part in
/// the match left out. The result depends on the match alone; nothing else
/// is claimed of it.
#[verifier::external_body]
fn first_name<'a>(matches: &'a grok::Matches<'a>) -> (name: Option<String>)
    ensures
        match name {
            Some(text) => first_capture_name(*matches) == Some(text@),
            None => first_capture_name(*matches) is None,
        },
{
    matches.iter().next().map(|(name, _)| String::from(name))
}

/// `grok::Matches::get`: the text captured under `name`, if the pattern
/// has that name and it took part in the match. The result depends on the
/// match and the name alone; nothing else is claimed of it.
#[verifier::external_body]
fn capture<'a>(matches: &'a grok::Matches<'a>, name: &str) -> (value: Option<String>)
    ensures
        match value {
            Some(text) => capture_named(*matches, name@) == Some(text@),
            None => capture_named(*matches, name@) is None,
        },
{
    matches.get(name).map(String::from)
}

/// `String::push` of the standard library: appends one character.
#[verifier::external_body]
fn push_char(text: &mut String, c: char)
    ensures
        final(text)@ == old(text)@.push(c),
{
    text.push(c)
}

/// The pieces of `text` between its spaces: one more than it has spaces,
/// none holding a space, empty where two spaces meet or one stands at an
/// end.
pub open spec fn split_on_space(text: Seq<char>) -> Seq<Seq<char>>
    decreases text.len(),
{
    if text.len() == 0 {
        seq![Seq::empty()]
    } else {
        let before = split_on_space(text.drop_last());
        if text.last() == ' ' {
            before.push(Seq::empty())
        } else {
            before.drop_last().push(before.last().push(text.last()))
        }
    }
}

/// The token that stands for what a filter pattern captured first: the
/// name of the capture, or the wildcard where there is none.
pub open spec fn token_of_capture(name: Option<Seq<char>>) -> TokenV {
    match name {
        Some(text) => TokenV::Val(text),
        None => TokenV::WildCard,
    }
}

/// The token that stands for a piece of a line: what the first filter
/// that matches the piece makes of it, the piece itself where none does.
pub open spec fn filtered_token(filters: Seq<grok::Pattern>, piece: Seq<char>) -> TokenV
    decreases filters.len(),
{
    if filters.len() == 0 {
        TokenV::Val(piece)
    } else {
        match pattern_match(filters[0], piece) {
            Some(matches) => token_of_capture(first_capture_name(matches)),
            None => filtered_token(filters.drop_first(), piece),
        }
    }
}

/// The tokens of a line under the filters.
pub open spec fn processed(filters: Seq<grok::Pattern>, line: Seq<char>) -> Seq<TokenV> {
    split_on_space(line).map_values(|piece: Seq<char>| filtered_token(filters, piece))
}

/// The part of a line that is split into tokens: the text that the
/// overall pattern captures under the field's name, the whole line where
/// there is no overall pattern, it does not match or it captures nothing
/// under that name.
pub open spec fn message_of(
    overall: Option<(grok::Pattern, Seq<char>)>,
    line: Seq<char>,
) -> Seq<char> {
    match overall {
        Some((pattern, field)) => match pattern_match(pattern, line) {
            Some(matches) => match capture_named(matches, field) {
                Some(text) => text,
                None => line,
            },
            None => line,
        },
        None => line,
    }
}

/// Pieces put together again, a single space between each two.
pub open spec fn joined_by_space(pieces: Seq<Seq<char>>) -> Seq<char>
    decreases pieces.len(),
{
    if pieces.len() == 0 {
        Seq::empty()
    } else if pieces.len() == 1 {
        pieces[0]
    } else {
        joined_by_space(pieces.drop_last()) + seq![' '] + pieces.last()
    }
}

/// The pieces of a text hold no space, and put together again with single
/// spaces they give the text.
pub proof fn lemma_split_joins_back(text: Seq<char>)
    ensures
        split_on_space(text).len() >= 1,
        joined_by_space(split_on_space(text)) == text,
        forall|i: int, j: int|
            0 <= i < split_on_space(text).len() && 0 <= j < split_on_space(text)[i].len()
                ==> #[trigger] split_on_space(text)[i][j] != ' ',
    decreases text.len(),
{
    let pieces = split_on_space(text);
    if text.len() > 0 {
        let before = split_on_space(text.drop_last());
        lemma_split_joins_back(text.drop_last());
        if text.last() == ' ' {
            assert(pieces.drop_last() =~= before);
        } else {
            assert(pieces.drop_last() =~= before.drop_last());
            if before.len() > 1 {
                assert(text =~= text.drop_last().push(text.last()));
            }
        }
    }
}

/// The pieces of `line` between its spaces.
pub fn split_line(line: &str) -> (pieces: Vec<String>)
    ensures
        pieces@.map_values(|piece: String| piece@) == split_on_space(line@),
        pieces@.len() >= 1,
        joined_by_space(pieces@.map_values(|piece: String| piece@)) == line@,
{
    let mut pieces: Vec<String> = Vec::new();
    let mut current = String::new();
    for c in it: line.chars()
        invariant
            it.seq() == line@,
            pieces@.map_values(|piece: String| piece@).push(current@) == split_on_space(
                line@.take(it.index() as int),
            ),
    {
        proof {
            let upto = line@.take(it.index() + 1);
            assert(upto.drop_last() =~= line@.take(it.index() as int));
        }
        if c == ' ' {
            pieces.push(current);
            current = String::new();
        } else {
            push_char(&mut current, c);
        }
    }
    assert(line@.take(line@.len() as int) =~= line@);
    pieces.push(current);
    proof {
        lemma_split_joins_back(line@);
    }
    pieces
}

/// The token that stands for what a filter pattern captured first.
pub fn token_from_capture(name: Option<String>) -> (token: Token)
    ensures
        token@ == token_of_capture(
            match name {
                Some(text) => Some(text@),
                None => None,
            },
        ),
{
    match name {
        Some(text) => Token::Val(text),
        None => Token::WildCard,
    }
}

/// The token that stands for a piece of a line under the filters.
pub fn filter_piece(filter_patterns: &Vec<grok::Pattern>, piece: String) -> (token: Token)
    ensures
        token@ == filtered_token(filter_patterns@, piece@),
{
    let mut i: usize = 0;
    assert(filter_patterns@.skip(0) =~= filter_patterns@);
    while i < filter_patterns.len()
        invariant
            i <= filter_patterns.len(),
            filtered_token(filter_patterns@, piece@) == filtered_token(
                filter_patterns@.skip(i as int),
                piece@,
            ),
        decreases filter_patterns.len() - i,
    {
        proof {
            assert(filter_patterns@.skip(i as int).drop_first() =~= filter_patterns@.skip(i + 1));
        }
        match match_against(&filter_patterns[i], piece.as_str()) {
            Some(matches) => {
                return token_from_capture(first_name(&matches));
            },
            None => {},
        }
        i += 1;
    }
    Token::Val(piece)
}

/// The part of a line that is split into tokens, given what the overall
/// pattern captured under the field's name: that text, or the whole line
/// where it captured nothing.
pub fn field_or_line(captured: Option<String>, line: String) -> (text: String)
    ensures
        text@ == match captured {
            Some(field) => field@,
            None => line@,
        },
{
    match captured {
        Some(field) => field,
        None => line,
    }
}

/// The part of a line that is split into tokens.
pub fn message(overall_pattern: &Option<grok::Pattern>, drain_field: &Option<String>, line: String)
    -> (text: String)
    requires
        overall_pattern is Some ==> drain_field is Some,
    ensures
        text@ == message_of(
            match overall_pattern {
                Some(pattern) => Some((*pattern, drain_field->0@)),
                None => None,
            },
            line@,
        ),
{
    let captured = match overall_pattern {
        Some(pattern) => match drain_field {
            Some(field) => match match_against(pattern, line.as_str()) {
                Some(matches) => capture(&matches, field.as_str()),
                None => None,
            },
            None => None,
        },
        None => None,
    };
    field_or_line(captured, line)
}

/// The tokens of a line under the filters.
pub fn process(filter_patterns: &Vec<grok::Pattern>, log_line: String) -> (tokens: Vec<Token>)
    ensures
        crate::token::tokens_view(tokens@) == processed(filter_patterns@, log_line@),
        tokens@.len() >= 1,
{
    let pieces = split_line(log_line.as_str());
    let ghost texts = split_on_space(log_line@);
    let ghost all = pieces@;
    let mut tokens: Vec<Token> = Vec::new();
    for piece in it: pieces
        invariant
            it.seq() == all,
            all.map_values(|piece: String| piece@) == texts,
            tokens@.len() == it.index(),
            forall|j: int|
                0 <= j < it.index() ==> (#[trigger] tokens@[j])@ == filtered_token(
                    filter_patterns@,
                    texts[j],
                ),
    {
        tokens.push(filter_piece(filter_patterns, piece));
    }
    tokens
}

} // verus!
