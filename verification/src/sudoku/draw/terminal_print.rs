//! The lines that show a grid on a terminal.

use crate::sudoku::domain::cell::CellView;
use crate::sudoku::domain::cell_grid::CellGrid;
use crate::sudoku::domain::consts::{
    PUZZLE_BLOCK_HEIGHT, PUZZLE_BLOCK_WIDTH, PUZZLE_DIMENTION, PUZZLE_TOTAL_CELL_COUNT,
};
use crate::sudoku::domain::units::{get_row, is_unit, lemma_unit_shape, row_indices};
use crate::sudoku::domain::validatable_units::{group_in_bounds, group_views, CellGroup};
use vstd::prelude::*;
use vstd::string::StringExecFns;

verus! {

/// The character of a decimal digit.
pub open spec fn digit_character(digit: int) -> char {
    (digit + '0' as u32) as char
}

/// The decimal notation of a number.
pub open spec fn decimal(value: u8) -> Seq<char> {
    if value >= 100 {
        seq![
            digit_character(value as int / 100),
            digit_character(value as int / 10 % 10),
            digit_character(value as int % 10),
        ]
    } else if value >= 10 {
        seq![digit_character(value as int / 10), digit_character(value as int % 10)]
    } else {
        seq![digit_character(value as int)]
    }
}

/// What is drawn for a cell: its value, or an x where it has none.
pub open spec fn value_or_x(value: Option<u8>) -> Seq<char> {
    match value {
        Some(v) => decimal(v),
        None => seq!['x'],
    }
}

/// Whether a second separator follows the item at `index`: it ends a block
/// but not the grid.
pub open spec fn extra_separator(index: int, if_divisible_by: int) -> bool {
    (1 + index) % if_divisible_by == 0 && 1 + index != PUZZLE_DIMENTION
}

/// The values of the cells of a group, in the group's order.
pub open spec fn group_values(cells: Seq<CellView>, group: Seq<usize>) -> Seq<Option<u8>> {
    group.map_values(|index: usize| cells[index as int].value)
}

/// The line of a row of values up to, not including, the value at `upto`:
/// the values between bars, the blocks set apart by a second bar.
pub open spec fn row_line(values: Seq<Option<u8>>, upto: int) -> Seq<char>
    decreases upto,
{
    if upto <= 0 {
        seq!['|']
    } else {
        let column = upto - 1;
        let line = row_line(values, column) + seq![' '] + value_or_x(values[column]) + seq![
            ' ',
            '|',
        ];
        if extra_separator(column, PUZZLE_BLOCK_WIDTH as int) {
            line + seq!['|']
        } else {
            line
        }
    }
}

/// The line of a whole row of the grid.
pub open spec fn grid_row_line(cells: Seq<CellView>, row: int) -> Seq<char> {
    row_line(group_values(cells, row_indices(row)), PUZZLE_DIMENTION as int)
}

/// The lines of the first `upto` groups, a line for each group that has as
/// many cells as a row; the other groups are passed over.
pub open spec fn rows_lines(cells: Seq<CellView>, rows: Seq<Seq<usize>>, upto: int) -> Seq<
    Seq<char>,
>
    decreases upto,
{
    if upto <= 0 {
        Seq::empty()
    } else {
        let lines = rows_lines(cells, rows, upto - 1);
        let row = rows[upto - 1];
        if row.len() == PUZZLE_DIMENTION {
            lines.push(row_line(group_values(cells, row), PUZZLE_DIMENTION as int))
        } else {
            lines
        }
    }
}

/// A line of `length` underscores and a space.
pub open spec fn separator(length: nat) -> Seq<char> {
    Seq::new(length, |i: int| '_') + seq![' ']
}

/// The lines of the grid up to, not including, row `upto`: a separator on
/// top, a separator under each row, and one more under each block but the
/// last.  The separators are as long as the line of the first row.
pub open spec fn grid_lines(cells: Seq<CellView>, upto: int) -> Seq<Seq<char>>
    decreases upto,
{
    let rule = separator(grid_row_line(cells, 0).len());
    if upto <= 0 {
        seq![rule]
    } else {
        let row = upto - 1;
        let lines = grid_lines(cells, row).push(grid_row_line(cells, row)).push(rule);
        if extra_separator(row, PUZZLE_BLOCK_HEIGHT as int) {
            lines.push(rule)
        } else {
            lines
        }
    }
}

/// The views of some lines.
pub open spec fn line_views(lines: Seq<String>) -> Seq<Seq<char>> {
    lines.map_values(|line: String| line@)
}

/// The text of a decimal digit.
fn digit_text(digit: u8) -> (text: &'static str)
    requires
        digit <= 9,
    ensures
        text@ == seq![digit_character(digit as int)],
{
    proof {
        reveal_strlit("0");
        reveal_strlit("1");
        reveal_strlit("2");
        reveal_strlit("3");
        reveal_strlit("4");
        reveal_strlit("5");
        reveal_strlit("6");
        reveal_strlit("7");
        reveal_strlit("8");
        reveal_strlit("9");
    }
    let text = match digit {
        0 => "0",
        1 => "1",
        2 => "2",
        3 => "3",
        4 => "4",
        5 => "5",
        6 => "6",
        7 => "7",
        8 => "8",
        _ => "9",
    };
    assert(text@ =~= seq![digit_character(digit as int)]);
    text
}

/// What is drawn for a cell: its value, or an x where it has none.
pub fn value_or_letter_x(value: &Option<u8>) -> (text: String)
    ensures
        text@ == value_or_x(*value),
{
    let mut text = String::new();
    match value {
        None => {
            proof {
                reveal_strlit("x");
            }
            text.append("x");
        },
        Some(v) => {
            let v = *v;
            if v >= 100 {
                text.append(digit_text(v / 100));
            }
            if v >= 10 {
                text.append(digit_text(v / 10 % 10));
            }
            text.append(digit_text(v % 10));
        },
    }
    assert(text@ =~= value_or_x(*value));
    text
}

/// Whether a second separator follows the item at `index`.
pub fn include_extra_separator(index: u8, if_divisible_by: u8) -> (extra: bool)
    requires
        index < 255,
        if_divisible_by != 0,
    ensures
        extra == extra_separator(index as int, if_divisible_by as int),
{
    (1 + index) % if_divisible_by == 0 && (1 + index) != PUZZLE_DIMENTION as u8
}

/// The line of a row: its cells between bars, the blocks set apart by a
/// second bar.
pub fn create_row_line(cell_grid: &CellGrid, row: &CellGroup) -> (line: String)
    requires
        group_in_bounds(row.cells@, cell_grid@),
        row.cells@.len() == PUZZLE_DIMENTION,
    ensures
        line@ == row_line(group_values(cell_grid@, row.cells@), PUZZLE_DIMENTION as int),
{
    proof {
        reveal_strlit("|");
    }
    let ghost values = group_values(cell_grid@, row.cells@);
    let mut row_line_display = String::from_str("|");
    assert(row_line_display@ =~= row_line(values, 0));
    let mut i: usize = 0;
    while i < PUZZLE_DIMENTION
        invariant
            group_in_bounds(row.cells@, cell_grid@),
            row.cells@.len() == PUZZLE_DIMENTION,
            values == group_values(cell_grid@, row.cells@),
            i <= PUZZLE_DIMENTION,
            row_line_display@ == row_line(values, i as int),
        decreases PUZZLE_DIMENTION - i,
    {
        proof {
            reveal_strlit("|");
            reveal_strlit(" ");
            reveal_strlit(" |");
        }
        let value = cell_grid.grid[row.cells[i]].value;
        assert(value == values[i as int]);
        row_line_display.append(" ");
        row_line_display.append(value_or_letter_x(&value).as_str());
        row_line_display.append(" |");
        if include_extra_separator(i as u8, PUZZLE_BLOCK_WIDTH as u8) {
            row_line_display.append("|");
        }
        assert(row_line_display@ =~= row_line(values, i + 1));
        i += 1;
    }
    row_line_display
}

/// The lines that draw some rows: a line for each group that has as many
/// cells as a row, the other groups are passed over.
pub fn all_rows_lines(cell_grid: &CellGrid, rows: &Vec<CellGroup>) -> (lines: Vec<String>)
    requires
        forall|n: int|
            0 <= n < rows@.len() ==> group_in_bounds((#[trigger] rows@[n]).cells@, cell_grid@),
    ensures
        line_views(lines@) == rows_lines(cell_grid@, group_views(rows@), rows@.len() as int),
{
    let mut lines: Vec<String> = Vec::new();
    let mut n: usize = 0;
    assert(line_views(lines@) =~= rows_lines(cell_grid@, group_views(rows@), 0));
    while n < rows.len()
        invariant
            n <= rows.len(),
            forall|k: int|
                0 <= k < rows@.len() ==> group_in_bounds((#[trigger] rows@[k]).cells@, cell_grid@),
            line_views(lines@) == rows_lines(cell_grid@, group_views(rows@), n as int),
        decreases rows.len() - n,
    {
        assert(group_views(rows@)[n as int] == rows@[n as int].cells@);
        if rows[n].cells.len() == PUZZLE_DIMENTION {
            let ghost sooner = line_views(lines@);
            let line = create_row_line(cell_grid, &rows[n]);
            lines.push(line);
            assert(line_views(lines@) =~= sooner.push(line@));
        }
        n += 1;
    }
    lines
}

/// A line of `length` underscores and a space.
pub fn separator_line(length: usize) -> (line: String)
    ensures
        line@ == separator(length as nat),
{
    proof {
        reveal_strlit("_");
        reveal_strlit(" ");
    }
    let mut line = String::new();
    let mut i: usize = 0;
    while i < length
        invariant
            i <= length,
            line@ == Seq::new(i as nat, |k: int| '_'),
        decreases length - i,
    {
        proof {
            reveal_strlit("_");
        }
        line.append("_");
        assert(line@ =~= Seq::new((i + 1) as nat, |k: int| '_'));
        i += 1;
    }
    line.append(" ");
    line
}

/// The lines that draw the grid, top to bottom.
pub fn all_cells_lines(cell_grid: &CellGrid) -> (lines: Vec<String>)
    requires
        cell_grid@.len() == PUZZLE_TOTAL_CELL_COUNT,
    ensures
        line_views(lines@) == grid_lines(cell_grid@, PUZZLE_DIMENTION as int),
{
    let separator_line_length = grid_row(cell_grid, 0).as_str().unicode_len();
    let mut lines: Vec<String> = Vec::new();
    lines.push(separator_line(separator_line_length));
    assert(line_views(lines@) =~= grid_lines(cell_grid@, 0));
    let mut i: usize = 0;
    while i < PUZZLE_DIMENTION
        invariant
            cell_grid@.len() == PUZZLE_TOTAL_CELL_COUNT,
            i <= PUZZLE_DIMENTION,
            separator_line_length == grid_row_line(cell_grid@, 0).len(),
            line_views(lines@) == grid_lines(cell_grid@, i as int),
        decreases PUZZLE_DIMENTION - i,
    {
        lines.push(grid_row(cell_grid, i));
        lines.push(separator_line(separator_line_length));
        if include_extra_separator(i as u8, PUZZLE_BLOCK_HEIGHT as u8) {
            lines.push(separator_line(separator_line_length));
        }
        assert(line_views(lines@) =~= grid_lines(cell_grid@, i + 1));
        i += 1;
    }
    lines
}

/// The line of a whole row of the grid.
fn grid_row(cell_grid: &CellGrid, row: usize) -> (line: String)
    requires
        cell_grid@.len() == PUZZLE_TOTAL_CELL_COUNT,
        row < PUZZLE_DIMENTION,
    ensures
        line@ == grid_row_line(cell_grid@, row as int),
{
    let group = get_row(row);
    proof {
        assert(is_unit(group.cells@)) by {
            assert(group.cells@ == row_indices(row as int));
        }
        lemma_unit_shape(group.cells@);
    }
    create_row_line(cell_grid, &group)
}

} // verus!
