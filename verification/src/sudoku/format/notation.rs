//! A puzzle as a text of 81 characters, and what such a text stands for.

use crate::sudoku::domain::cell::{is_domain_value, lemma_full_domain, CellView};
use crate::sudoku::domain::cell_grid::{cells_wf, seed_cell, seed_cells, SeedGrid};
use crate::sudoku::domain::consts::{PUZZLE_DIMENTION, PUZZLE_TOTAL_CELL_COUNT};
use vstd::prelude::*;

verus! {

/// The pattern of a puzzle in text: 81 characters, each a digit from 1 to 9
/// or a period.
pub const NINE_X_NINE_CELL_REGEX: &'static str = "^[1-9.]{81}$";

/// The character that stands for an unsettled cell.
pub const PLACEHOLDER: char = '.';

/// Whether the character stands for a cell: a digit from 1 to 9 or a period.
pub open spec fn is_cell_character(c: char) -> bool {
    c == PLACEHOLDER || ('1' <= c && c <= '9')
}

/// Whether the text has the shape of a puzzle: 81 cell characters.
pub open spec fn well_shaped(input: Seq<char>) -> bool {
    &&& input.len() == PUZZLE_TOTAL_CELL_COUNT
    &&& forall|i: int| 0 <= i < input.len() ==> is_cell_character(#[trigger] input[i])
}

/// The seed value that a character stands for: its value if it is a decimal
/// digit, nothing otherwise.
pub open spec fn seed_value(c: char) -> Option<u8> {
    if '0' <= c && c <= '9' {
        Some((c as u32 - '0' as u32) as u8)
    } else {
        None
    }
}

/// The seed values that a text stands for, row-major; past the end of the
/// text there is nothing.
pub open spec fn seed_values(input: Seq<char>) -> Seq<Option<u8>> {
    Seq::new(
        PUZZLE_TOTAL_CELL_COUNT as nat,
        |i: int|
            if i < input.len() {
                seed_value(input[i])
            } else {
                None
            },
    )
}

/// The seed values of a grid, row-major.
pub open spec fn flat_seed(seed: SeedGrid) -> Seq<Option<u8>> {
    Seq::new(
        PUZZLE_TOTAL_CELL_COUNT as nat,
        |i: int| seed@[i / PUZZLE_DIMENTION as int]@[i % PUZZLE_DIMENTION as int],
    )
}

/// The cells that a text stands for.
pub open spec fn parsed_cells(input: Seq<char>) -> Seq<CellView> {
    seed_values(input).map_values(|value: Option<u8>| seed_cell(value))
}

/// The character that stands for a cell with this value.
pub open spec fn cell_character(value: Option<u8>) -> char {
    match value {
        Some(v) => (v as u32 + '0' as u32) as char,
        None => PLACEHOLDER,
    }
}

/// The text that stands for a grid.
pub open spec fn serialized(cells: Seq<CellView>) -> Seq<char> {
    cells.map_values(|cell: CellView| cell_character(cell.value))
}

/// Reading a well-shaped text and writing the grid gives the text again.
pub proof fn lemma_round_trip(input: Seq<char>)
    requires
        well_shaped(input),
    ensures
        serialized(parsed_cells(input)) == input,
        cells_wf(parsed_cells(input)),
{
    lemma_full_domain();
    let cells = parsed_cells(input);
    assert forall|i: int| 0 <= i < input.len() implies serialized(cells)[i] == input[i]
        && (#[trigger] cells[i]).wf() by {
        let c = input[i];
        assert(is_cell_character(c));
        if c == PLACEHOLDER {
            assert(seed_value(c) is None);
        } else {
            let v = (c as u32 - '0' as u32) as u8;
            assert(is_domain_value(v));
            assert((v as u32 + '0' as u32) as char == c);
        }
    }
    assert(serialized(cells) =~= input);
}

/// A seed grid and its row-major values give the same cells.
pub proof fn lemma_seed_cells_flat(seed: SeedGrid, input: Seq<char>)
    requires
        flat_seed(seed) == seed_values(input),
    ensures
        seed_cells(seed) == parsed_cells(input),
{
    assert forall|i: int| 0 <= i < PUZZLE_TOTAL_CELL_COUNT implies seed_cells(seed)[i]
        == parsed_cells(input)[i] by {
        assert(flat_seed(seed)[i] == seed_values(input)[i]);
    }
    assert(seed_cells(seed) =~= parsed_cells(input));
}

/// Whether the text has the shape of a puzzle.
pub fn is_well_shaped(input: &str) -> (shaped: bool)
    ensures
        shaped == well_shaped(input@),
{
    if input.unicode_len() != PUZZLE_TOTAL_CELL_COUNT {
        return false;
    }
    let mut i: usize = 0;
    while i < PUZZLE_TOTAL_CELL_COUNT
        invariant
            i <= PUZZLE_TOTAL_CELL_COUNT,
            input@.len() == PUZZLE_TOTAL_CELL_COUNT,
            forall|j: int| 0 <= j < i ==> is_cell_character(#[trigger] input@[j]),
        decreases PUZZLE_TOTAL_CELL_COUNT - i,
    {
        let c = input.get_char(i);
        if !(c == PLACEHOLDER || ('1' <= c && c <= '9')) {
            return false;
        }
        i += 1;
    }
    true
}

/// The seed values that the text stands for.  The text may not be longer
/// than a grid has cells.
pub fn values_from_input(input: &str) -> (grid: SeedGrid)
    requires
        input@.len() <= PUZZLE_TOTAL_CELL_COUNT,
    ensures
        flat_seed(grid) == seed_values(input@),
{
    let mut grid: SeedGrid = [[None; 9]; 9];
    let count = input.unicode_len();
    let mut index: usize = 0;
    while index < count
        invariant
            count == input@.len(),
            count <= PUZZLE_TOTAL_CELL_COUNT,
            index <= count,
            forall|i: int|
                0 <= i < PUZZLE_TOTAL_CELL_COUNT ==> #[trigger] flat_seed(grid)[i] == if i < index {
                    seed_value(input@[i])
                } else {
                    None
                },
        decreases count - index,
    {
        let row = index / PUZZLE_DIMENTION;
        let column = index % PUZZLE_DIMENTION;
        let c = input.get_char(index);
        let ghost before = grid;
        if '0' <= c && c <= '9' {
            let value = (c as u32 - '0' as u32) as u8;
            grid[row][column] = Some(value);
        }
        proof {
            assert forall|i: int| 0 <= i < PUZZLE_TOTAL_CELL_COUNT implies #[trigger] flat_seed(
                grid,
            )[i] == if i < index + 1 {
                seed_value(input@[i])
            } else {
                None
            } by {
                assert(flat_seed(before)[i] == if i < index {
                    seed_value(input@[i])
                } else {
                    None
                });
                if i != index {
                    assert(i / 9 != row || i % 9 != column);
                }
            }
        }
        index += 1;
    }
    assert(flat_seed(grid) =~= seed_values(input@));
    grid
}

} // verus!
