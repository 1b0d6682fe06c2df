//! Reading a game from its text and writing it back.

use crate::pretty::aliases::StringSlice;
use crate::sudoku::domain::consts::PUZZLE_TOTAL_CELL_COUNT;
use crate::sudoku::domain::game::Game;
use regex::Regex;
use super::notation::{
    cell_character, is_well_shaped, lemma_seed_cells_flat, NINE_X_NINE_CELL_REGEX, parsed_cells,
    serialized, values_from_input, well_shaped,
};
use super::pattern::{regex_matches, regex_source};
use vstd::prelude::*;
use vstd::string::StringExecFns;

verus! {

/// What a serializer answers to the text `input` that it does not accept.
pub open spec fn not_understood(input: Seq<char>) -> Seq<char> {
    "The input '"@ + input
        + "' wasn't understood as notation for a sudoku game. Expected a string matching "@
        + NINE_X_NINE_CELL_REGEX@
}

/// Reads a game from its text and writes it back.
pub struct Serializer {
    regex: Option<Regex>,
}

impl Serializer {
    /// The regex that this serializer holds, if it holds one.
    pub closed spec fn regex(&self) -> Option<Regex> {
        self.regex
    }

    /// The regex, if there is one, was compiled from the pattern of a puzzle.
    pub open spec fn wf(&self) -> bool {
        self.regex() matches Some(regex) ==> regex_source(regex) == NINE_X_NINE_CELL_REGEX@
    }

    /// Whether the regex of this serializer matches the text.  A serializer
    /// whose pattern did not compile matches nothing.
    pub open spec fn matches(&self, input: Seq<char>) -> bool {
        self.regex() matches Some(regex) && regex_matches(regex, input)
    }

    /// A serializer for the pattern of a puzzle.  Whether the pattern compiles is for
    /// the regex crate to say; what is made of its answer, [`Self::from_compiled`]
    /// says.
    pub fn new() -> (serializer: Self)
        ensures
            serializer.wf(),
    {
        Self::from_compiled(Regex::new(NINE_X_NINE_CELL_REGEX))
    }

    /// A serializer that holds the regex if the pattern compiled, and none if it did
    /// not.
    pub fn from_compiled(compiled: Result<Regex, regex::Error>) -> (serializer: Self)
        ensures
            serializer.regex() == match compiled {
                Ok(regex) => Some(regex),
                Err(_) => None::<Regex>,
            },
    {
        match compiled {
            Ok(regex) => Self { regex: Some(regex) },
            Err(_) => Self { regex: None },
        }
    }

    /// Whether the text is accepted: the regex matches it and it has the
    /// shape of a puzzle.
    pub fn can_parse(&self, input: StringSlice) -> (accepted: bool)
        ensures
            accepted == (self.matches(input@) && well_shaped(input@)),
    {
        let matched = match &self.regex {
            Some(regex) => regex.is_match(input),
            None => false,
        };
        matched && is_well_shaped(input)
    }

    /// The game that the text stands for, if the text is accepted.
    pub fn new_game(&self, input: StringSlice) -> (result: Result<Game, String>)
        ensures
            result is Ok <==> self.matches(input@) && well_shaped(input@),
            result matches Ok(game) ==> game@ == parsed_cells(input@) && game.wf(),
            result matches Err(message) ==> message@ == not_understood(input@),
    {
        game_from_input(self.can_parse(input), input)
    }

    /// The text that stands for the game: for each cell, row by row, its
    /// digit, or a period where it is not settled.
    pub fn serialize_to_string(&self, game: &Game) -> (text: String)
        requires
            game.wf(),
        ensures
            text@ == serialized(game@),
    {
        let mut text = String::new();
        let mut i: usize = 0;
        while i < PUZZLE_TOTAL_CELL_COUNT
            invariant
                i <= PUZZLE_TOTAL_CELL_COUNT,
                game.wf(),
                text@ == serialized(game@.take(i as int)),
            decreases PUZZLE_TOTAL_CELL_COUNT - i,
        {
            let ghost sooner = serialized(game@.take(i as int));
            assert(game@[i as int].wf());
            text.append(value_text(game.cell_grid.grid[i].value));
            assert(text@ =~= serialized(game@.take(i + 1)));
            i += 1;
        }
        assert(game@.take(i as int) =~= game@);
        text
    }
}

/// The game that the text stands for, given whether the regex matched the
/// text.  A text that has not the shape of a puzzle stands for no game,
/// whatever the regex said of it.
pub fn game_from_input(matched: bool, input: StringSlice) -> (result: Result<Game, String>)
    ensures
        result is Ok <==> matched && well_shaped(input@),
        result matches Ok(game) ==> game@ == parsed_cells(input@) && game.wf(),
        result matches Err(message) ==> message@ == not_understood(input@),
{
    if !matched || !is_well_shaped(input) {
        let mut message = String::from_str("The input '");
        message.append(input);
        message.append(
            "' wasn't understood as notation for a sudoku game. Expected a string matching ",
        );
        message.append(NINE_X_NINE_CELL_REGEX);
        return Err(message);
    }
    let values = values_from_input(input);
    proof {
        lemma_seed_cells_flat(values, input@);
    }
    Ok(Game::new(&values))
}

/// The text of one cell.
fn value_text(value: Option<u8>) -> (text: &'static str)
    requires
        value matches Some(v) ==> 1 <= v <= 9,
    ensures
        text@ == seq![cell_character(value)],
{
    proof {
        reveal_strlit(".");
        reveal_strlit("1");
        reveal_strlit("2");
        reveal_strlit("3");
        reveal_strlit("4");
        reveal_strlit("5");
        reveal_strlit("6");
        reveal_strlit("7");
        reveal_strlit("8");
        reveal_strlit("9");
    }
    let text = match value {
        None => ".",
        Some(1) => "1",
        Some(2) => "2",
        Some(3) => "3",
        Some(4) => "4",
        Some(5) => "5",
        Some(6) => "6",
        Some(7) => "7",
        Some(8) => "8",
        Some(_) => "9",
    };
    assert(text@ =~= seq![cell_character(value)]);
    text
}

} // verus!
