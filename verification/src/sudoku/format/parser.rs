//! Reading a grid from its text.

use crate::sudoku::domain::cell_grid::CellGrid;
use regex::Regex;
use super::notation::{
    is_well_shaped, lemma_seed_cells_flat, NINE_X_NINE_CELL_REGEX, parsed_cells, values_from_input,
    well_shaped,
};
use super::pattern::{regex_matches, regex_source};
use vstd::prelude::*;

verus! {

/// What a parser answers to a text that it does not accept.
pub const NOT_UNDERSTOOD: &'static str =
    "The input {input} wasn't understood as notation for a sudoku game. Expected a string matching {NINE_X_NINE_CELL_REGEX}";

/// Reads a grid from its text.
pub struct Parser {
    regex: Option<Regex>,
}

impl Parser {
    /// The regex that this parser holds, if it holds one.
    pub closed spec fn regex(&self) -> Option<Regex> {
        self.regex
    }

    /// The regex, if there is one, was compiled from the pattern of a puzzle.
    pub open spec fn wf(&self) -> bool {
        self.regex() matches Some(regex) ==> regex_source(regex) == NINE_X_NINE_CELL_REGEX@
    }

    /// Whether the regex of this parser matches the text.  A parser whose
    /// pattern did not compile matches nothing.
    pub open spec fn matches(&self, input: Seq<char>) -> bool {
        self.regex() matches Some(regex) && regex_matches(regex, input)
    }

    /// A parser for the pattern of a puzzle.  Whether the pattern compiles is for
    /// the regex crate to say; what is made of its answer, [`Self::from_compiled`]
    /// says.
    pub fn new() -> (parser: Self)
        ensures
            parser.wf(),
    {
        Self::from_compiled(Regex::new(NINE_X_NINE_CELL_REGEX))
    }

    /// A parser that holds the regex if the pattern compiled, and none if it did
    /// not.
    pub fn from_compiled(compiled: Result<Regex, regex::Error>) -> (parser: Self)
        ensures
            parser.regex() == match compiled {
                Ok(regex) => Some(regex),
                Err(_) => None::<Regex>,
            },
    {
        match compiled {
            Ok(regex) => Self { regex: Some(regex) },
            Err(_) => Self { regex: None },
        }
    }

    /// Whether the text is accepted: the regex matches it and it has the
    /// shape of a puzzle.
    pub fn can_parse(&self, input: &str) -> (accepted: bool)
        ensures
            accepted == (self.matches(input@) && well_shaped(input@)),
    {
        let matched = match &self.regex {
            Some(regex) => regex.is_match(input),
            None => false,
        };
        matched && is_well_shaped(input)
    }

    /// The grid that the text stands for, if the text is accepted.
    pub fn to_grid(&self, input: &str) -> (result: Result<CellGrid, &'static str>)
        ensures
            result is Ok <==> self.matches(input@) && well_shaped(input@),
            result matches Ok(grid) ==> grid@ == parsed_cells(input@) && grid.wf(),
            result matches Err(message) ==> message@ == NOT_UNDERSTOOD@,
    {
        grid_from_input(self.can_parse(input), input)
    }
}

/// The grid that the text stands for, given whether the regex matched the
/// text.  A text that has not the shape of a puzzle stands for no grid,
/// whatever the regex said of it.
pub fn grid_from_input(matched: bool, input: &str) -> (result: Result<CellGrid, &'static str>)
    ensures
        result is Ok <==> matched && well_shaped(input@),
        result matches Ok(grid) ==> grid@ == parsed_cells(input@) && grid.wf(),
        result matches Err(message) ==> message@ == NOT_UNDERSTOOD@,
{
    if !matched || !is_well_shaped(input) {
        return Err(NOT_UNDERSTOOD);
    }
    let values = values_from_input(input);
    proof {
        lemma_seed_cells_flat(values, input@);
    }
    Ok(CellGrid::from_seed(&values))
}

} // verus!
