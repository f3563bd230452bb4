//! What a run command runs: the ranges of a buffer that go to a kernel.
use std::ops::Range;

use vstd::prelude::*;

use crate::buffer::BufferSnapshot;
use crate::cells::{
    cell, cell_below, cell_range, cell_start, cells_at, has_cell_mark, has_cells, jupytext_cells,
    law_cells_divide_the_rows, law_cells_meet_the_range, lemma_cell_start, lemma_cell_start_is,
    lemma_trimmed_end, marks_of, trimmed_end,
};
use crate::language::Language;
use crate::point::Point;
use crate::statement::{
    block_at, block_offset, block_place, block_range, lands, law_line_stays_in_buffer, line_offset,
    line_place, line_runnable_range, runnable_line, whole_row,
};
use crate::text::text_len;

verus! {

/// What to run.
#[derive(Clone, Copy, Debug, PartialEq, Eq, Structural)]
pub enum ReplRunMode {
    /// The block at the cursor.
    Block,
    /// A single line, or the smallest statement that it belongs to.
    Line,
    /// A single cell: the code between two lines that start a cell.
    Cell,
    /// All lines above the line of the cursor.
    Above,
    /// All cells above.
    AboveCells,
    /// All code.
    All,
}

/// A piece of a buffer that is written in another language, such as a code
/// block in a Markdown text.
pub struct Injection {
    /// The bytes of the piece.
    pub range: Range<usize>,
    pub language: Language,
}

/// Whether one of the kernels runs a language.
pub open spec fn supported(language: Language, kernel_languages: Seq<String>) -> bool {
    exists|i: int|
        0 <= i < kernel_languages.len() && language.runs_on((#[trigger] kernel_languages[i])@)
}

/// The range of an injection.
pub open spec fn injection_range(buffer: BufferSnapshot, injection: Injection) -> Range<Point> {
    Range {
        start: buffer.point_at(injection.range.start as int),
        end: buffer.point_at(injection.range.end as int),
    }
}

/// The ranges of the injections that one of the kernels runs, in order.
pub open spec fn code_blocks(
    buffer: BufferSnapshot,
    injections: Seq<Injection>,
    kernel_languages: Seq<String>,
) -> Seq<Range<Point>> {
    injections.filter(
        |injection: Injection| supported(injection.language, kernel_languages),
    ).map_values(|injection: Injection| injection_range(buffer, injection))
}

/// Whether the buffer is a Markdown text.
pub open spec fn is_markdown(buffer: BufferSnapshot) -> bool {
    match buffer.main_language() {
        Some(language) => language.name.0@ == "Markdown"@,
        None => false,
    }
}

/// Whether all rows of a range are blank.
pub open spec fn all_blank(buffer: BufferSnapshot, range: Range<Point>) -> bool {
    forall|row: int| range.start.row <= row <= range.end.row ==> #[trigger] buffer.row_blank(row)
}

/// The first row from `row` on that is not blank, or the row behind the last
/// one.
pub open spec fn next_code_row(buffer: BufferSnapshot, row: int) -> int
    decreases buffer.rows().len() - row,
{
    if row >= buffer.rows().len() || !buffer.row_blank(row) {
        row
    } else {
        next_code_row(buffer, row + 1)
    }
}

/// A range alone, if both its ends lie in one language.
pub open spec fn in_one_language(buffer: BufferSnapshot, range: Range<Point>) -> Seq<
    Range<Point>,
> {
    if buffer.one_language(range) {
        seq![range]
    } else {
        Seq::empty()
    }
}

/// What runs for a snippet: the snippet, or, if all its rows are blank, the
/// first row below it that is not blank. Nothing runs if there is no such row,
/// or if the ends of the range lie in different languages or in none.
pub open spec fn snippet_or_next(buffer: BufferSnapshot, snippet: Range<Point>) -> Seq<
    Range<Point>,
> {
    if all_blank(buffer, snippet) {
        let next = next_code_row(buffer, snippet.end.row + 1);
        if next < buffer.rows().len() {
            in_one_language(buffer, whole_row(buffer, next as u32))
        } else {
            Seq::empty()
        }
    } else {
        in_one_language(buffer, snippet)
    }
}

/// The block that runs for a range, if it is the range of a bare cursor with a
/// top-level block around it in one language.
pub open spec fn cursor_block(
    buffer: BufferSnapshot,
    range: Range<Point>,
    node: Option<usize>,
) -> Option<Range<Point>> {
    match block_at(buffer, range, node) {
        Some(block) => if range.start == range.end && buffer.one_language(block) {
            Some(block)
        } else {
            None
        },
        None => None,
    }
}

/// The cells from the start of the buffer to the one with a given row, that one
/// with them.
pub open spec fn cells_down_to(row: u32) -> Range<Point> {
    Range { start: Point { row: 0, column: 0 }, end: Point { row, column: 0 } }
}

/// The offset at which a run command looks for a syntax node, if it does: only a
/// bare cursor runs a block or a line by its syntax.
pub open spec fn run_place(
    buffer: BufferSnapshot,
    range: Range<Point>,
    mode: ReplRunMode,
) -> Option<int> {
    if is_markdown(buffer) || range.start != range.end {
        None
    } else {
        match mode {
            ReplRunMode::Block => block_place(buffer, range),
            ReplRunMode::Line => line_place(buffer, range),
            _ => None,
        }
    }
}

/// The ranges that a run command runs in a buffer that is not a Markdown text.
pub open spec fn code_ranges(
    buffer: BufferSnapshot,
    range: Range<Point>,
    mode: ReplRunMode,
    node: Option<usize>,
) -> Seq<Range<Point>> {
    let selected = cell(buffer, range.start.row as int, range.end.row as int);
    match mode {
        ReplRunMode::Block => match cursor_block(buffer, range, node) {
            Some(block) => seq![block],
            None => snippet_or_next(buffer, selected),
        },
        ReplRunMode::Line => snippet_or_next(
            buffer,
            if range.start != range.end {
                selected
            } else {
                runnable_line(buffer, range, node)
            },
        ),
        ReplRunMode::Cell => cells_at(buffer, range),
        ReplRunMode::Above => if range.start.row > 0 && !all_blank(
            buffer,
            cell(buffer, 0, range.start.row - 1),
        ) {
            in_one_language(buffer, cell(buffer, 0, range.start.row - 1))
        } else {
            Seq::empty()
        },
        ReplRunMode::AboveCells => {
            let cells = cells_at(buffer, cells_down_to(range.start.row));
            if cells.len() > 1 {
                cells.drop_last()
            } else {
                Seq::empty()
            }
        },
        ReplRunMode::All => snippet_or_next(buffer, cell(buffer, 0, buffer.last_row())),
    }
}

/// The ranges that a run command runs.
pub open spec fn ranges_to_run(
    buffer: BufferSnapshot,
    range: Range<Point>,
    injections: Seq<Injection>,
    kernel_languages: Seq<String>,
    mode: ReplRunMode,
    node: Option<usize>,
) -> Seq<Range<Point>> {
    if is_markdown(buffer) {
        code_blocks(buffer, injections, kernel_languages)
    } else {
        code_ranges(buffer, range, mode, node)
    }
}

/// Where the cursor can go on after a run command: to the next cell, if cells
/// were run.
pub open spec fn next_cell(buffer: BufferSnapshot, range: Range<Point>, mode: ReplRunMode) -> Option<
    Point,
> {
    if is_markdown(buffer) {
        None
    } else {
        match mode {
            ReplRunMode::Cell => cell_below(buffer, range),
            ReplRunMode::AboveCells => {
                let down = cells_down_to(range.start.row);
                if cells_at(buffer, down).len() > 1 {
                    cell_below(buffer, down)
                } else {
                    None
                }
            },
            _ => None,
        }
    }
}

/// Whether one of the kernels, given by their languages, runs a language.
pub fn language_supported(language: &Language, kernel_languages: &Vec<String>) -> (r: bool)
    ensures
        r == supported(*language, kernel_languages@),
{
    let mut i: usize = 0;
    while i < kernel_languages.len()
        invariant
            i <= kernel_languages@.len(),
            forall|k: int|
                0 <= k < i ==> !language.runs_on((#[trigger] kernel_languages@[k])@),
        decreases kernel_languages@.len() - i,
    {
        if language.matches_kernel_language(kernel_languages[i].as_str()) {
            return true;
        }
        i += 1;
    }
    false
}

/// The ranges of the injections that one of the kernels runs.
///
/// A code block keeps the line feed at its end, so that the output shows below
/// the fence that closes it. This is unlike selections and cells.
pub fn markdown_code_blocks(
    buffer: &BufferSnapshot,
    injections: &Vec<Injection>,
    kernel_languages: &Vec<String>,
) -> (r: Vec<Range<Point>>)
    requires
        buffer.wf(),
    ensures
        r@ == code_blocks(*buffer, injections@, kernel_languages@),
{
    let mut blocks: Vec<Range<Point>> = Vec::new();
    let mut i: usize = 0;
    let ghost keep = |injection: Injection| supported(injection.language, kernel_languages@);
    let ghost to_range = |injection: Injection| injection_range(*buffer, injection);
    proof {
        reveal(Seq::filter);
        assert(injections@.take(0).filter(keep).map_values(to_range) =~= blocks@);
    }
    while i < injections.len()
        invariant
            buffer.wf(),
            i <= injections@.len(),
            keep == (|injection: Injection| supported(injection.language, kernel_languages@)),
            to_range == (|injection: Injection| injection_range(*buffer, injection)),
            blocks@ == injections@.take(i as int).filter(keep).map_values(to_range),
        decreases injections@.len() - i,
    {
        let injection = &injections[i];
        proof {
            reveal(Seq::filter);
            assert(injections@.take(i as int + 1).drop_last() =~= injections@.take(i as int));
        }
        if language_supported(&injection.language, kernel_languages) {
            blocks.push(
                Range {
                    start: buffer.offset_to_point(injection.range.start),
                    end: buffer.offset_to_point(injection.range.end),
                },
            );
        }
        i += 1;
        assert(blocks@ =~= injections@.take(i as int).filter(keep).map_values(to_range));
    }
    assert(injections@.take(i as int) =~= injections@);
    blocks
}

/// Whether all rows of a range are blank.
fn is_all_blank(buffer: &BufferSnapshot, range: &Range<Point>) -> (r: bool)
    requires
        range.end.row < u32::MAX,
    ensures
        r == all_blank(*buffer, *range),
{
    let mut row: u32 = range.start.row;
    while row <= range.end.row
        invariant
            range.end.row < u32::MAX,
            range.start.row <= row,
            forall|k: int| range.start.row <= k < row ==> #[trigger] buffer.row_blank(k),
        decreases range.end.row + 1 - row,
    {
        if !buffer.is_line_blank(row) {
            return false;
        }
        row += 1;
    }
    true
}

fn alone(range: Range<Point>) -> (r: Vec<Range<Point>>)
    ensures
        r@ == seq![range],
{
    let mut ranges: Vec<Range<Point>> = Vec::new();
    ranges.push(range);
    assert(ranges@ =~= seq![range]);
    ranges
}

/// What runs for a snippet.
fn snippet_ranges(buffer: &BufferSnapshot, snippet: Range<Point>) -> (r: Vec<Range<Point>>)
    requires
        buffer.wf(),
        snippet.end.row < u32::MAX,
    ensures
        r@ == snippet_or_next(*buffer, snippet),
{
    if is_all_blank(buffer, &snippet) {
        let max_row: u32 = buffer.max_row();
        let mut next_row: u32 = snippet.end.row + 1;
        while next_row <= max_row && buffer.is_line_blank(next_row)
            invariant
                buffer.wf(),
                max_row == buffer.last_row(),
                next_code_row(*buffer, snippet.end.row + 1) == next_code_row(
                    *buffer,
                    next_row as int,
                ),
            decreases max_row + 1 - next_row,
        {
            next_row += 1;
        }
        if next_row <= max_row {
            let next = cell_range(buffer, next_row, next_row);
            assert(next == whole_row(*buffer, next_row));
            if buffer.is_one_language(&next) {
                return alone(next);
            }
        }
        return Vec::new();
    }
    if buffer.is_one_language(&snippet) {
        alone(snippet)
    } else {
        Vec::new()
    }
}

/// The offset at which a run command looks for a syntax node, if it does.
pub fn run_offset(buffer: &BufferSnapshot, range: &Range<Point>, repl_run_mode: ReplRunMode) -> (r:
    Option<usize>)
    requires
        buffer.wf(),
        range.start.row < u32::MAX,
    ensures
        match run_place(*buffer, *range, repl_run_mode) {
            Some(offset) => r matches Some(found) && found == offset,
            None => r is None,
        },
{
    match buffer.language() {
        Some(language) => {
            if language.is_named("Markdown") {
                return None;
            }
        },
        None => {},
    }
    if range.start != range.end {
        return None;
    }
    match repl_run_mode {
        ReplRunMode::Block => block_offset(buffer, range),
        ReplRunMode::Line => line_offset(buffer, range),
        _ => None,
    }
}

/// The ranges that a run command runs, and the start of the next cell if cells
/// are run.
///
/// `range` is the selection. `injections` are the injections that meet it, and
/// `kernel_languages` the languages of the kernels; they matter in a Markdown
/// text, which runs its code blocks whatever the mode. `node` is the number of
/// the node at which the parser's cursor ends on its way from the root of the
/// innermost layer to the byte at `run_offset`; it is not looked at where no
/// layer is.
pub fn runnable_ranges(
    buffer: &BufferSnapshot,
    range: Range<Point>,
    injections: &Vec<Injection>,
    kernel_languages: &Vec<String>,
    repl_run_mode: ReplRunMode,
    node: Option<usize>,
) -> (r: (Vec<Range<Point>>, Option<Point>))
    requires
        buffer.wf(),
        range.start.row < u32::MAX,
        range.end.row < u32::MAX,
        lands(*buffer, run_place(*buffer, range, repl_run_mode), node),
    ensures
        r.0@ == ranges_to_run(*buffer, range, injections@, kernel_languages@, repl_run_mode, node),
        r.1 == next_cell(*buffer, range, repl_run_mode),
{
    match buffer.language() {
        Some(language) => {
            if language.is_named("Markdown") {
                return (markdown_code_blocks(buffer, injections, kernel_languages), None);
            }
        },
        None => {},
    }
    let snippet: Range<Point> = match repl_run_mode {
        ReplRunMode::Block => {
            if range.start == range.end {
                match block_range(
                    buffer,
                    Range { start: range.start, end: range.end },
                    node,
                ) {
                    Some(block) => {
                        if buffer.is_one_language(&block) {
                            return (alone(block), None);
                        }
                    },
                    None => {},
                }
            }
            cell_range(buffer, range.start.row, range.end.row)
        },
        ReplRunMode::Line => {
            if range.start != range.end {
                cell_range(buffer, range.start.row, range.end.row)
            } else {
                line_runnable_range(buffer, range, node)
            }
        },
        ReplRunMode::Cell => {
            return jupytext_cells(buffer, range);
        },
        ReplRunMode::Above => {
            if range.start.row == 0 {
                return (Vec::new(), None);
            }
            let above = cell_range(buffer, 0, range.start.row - 1);
            if is_all_blank(buffer, &above) {
                return (Vec::new(), None);
            }
            above
        },
        ReplRunMode::AboveCells => {
            let down = Range { start: Point::new(0, 0), end: Point::new(range.start.row, 0) };
            let (mut cells, next_cursor) = jupytext_cells(buffer, down);
            if cells.len() > 1 {
                let ghost all = cells@;
                cells.pop();
                assert(cells@ =~= all.drop_last());
                return (cells, next_cursor);
            } else {
                return (Vec::new(), None);
            }
        },
        ReplRunMode::All => cell_range(buffer, 0, buffer.max_row()),
    };
    (snippet_ranges(buffer, snippet), None)
}

proof fn lemma_next_code_row(buffer: BufferSnapshot, row: int)
    ensures
        row <= next_code_row(buffer, row),
        next_code_row(buffer, row) < buffer.rows().len() ==> !buffer.row_blank(
            next_code_row(buffer, row),
        ),
        forall|k: int|
            row <= k < next_code_row(buffer, row) ==> #[trigger] buffer.row_blank(k),
    decreases buffer.rows().len() - row,
{
    if row < buffer.rows().len() && buffer.row_blank(row) {
        lemma_next_code_row(buffer, row + 1);
    }
}

/// In every mode that does not run cells, at most one range runs, and both its
/// ends lie in one language.
pub proof fn law_one_range_in_one_language(
    buffer: BufferSnapshot,
    range: Range<Point>,
    mode: ReplRunMode,
    node: Option<usize>,
)
    requires
        mode != ReplRunMode::Cell,
        mode != ReplRunMode::AboveCells,
    ensures
        code_ranges(buffer, range, mode, node).len() <= 1,
        forall|k: int|
            0 <= k < code_ranges(buffer, range, mode, node).len() ==> buffer.one_language(
                #[trigger] code_ranges(buffer, range, mode, node)[k],
            ),
{
}

/// Blank rows alone never run: what runs for a snippet has a row that is not
/// blank. If the snippet has none, no row between it and what runs has any
/// code either.
pub proof fn law_blank_snippet_skips_forward(buffer: BufferSnapshot, snippet: Range<Point>)
    requires
        buffer.wf(),
    ensures
        snippet_or_next(buffer, snippet).len() <= 1,
        forall|k: int|
            0 <= k < snippet_or_next(buffer, snippet).len() ==> !all_blank(
                buffer,
                #[trigger] snippet_or_next(buffer, snippet)[k],
            ),
        all_blank(buffer, snippet) ==> forall|k: int, row: int|
            0 <= k < snippet_or_next(buffer, snippet).len() && snippet.end.row < row < (
            #[trigger] snippet_or_next(buffer, snippet)[k]).start.row
                ==> #[trigger] buffer.row_blank(row),
        !all_blank(buffer, snippet) ==> snippet_or_next(buffer, snippet) == in_one_language(
            buffer,
            snippet,
        ),
{
    lemma_next_code_row(buffer, snippet.end.row + 1);
    let next = next_code_row(buffer, snippet.end.row + 1);
    if all_blank(buffer, snippet) && next < buffer.rows().len() {
        let row = whole_row(buffer, next as u32);
        assert(row.start.row == next && row.end.row == next);
        assert(!all_blank(buffer, row)) by {
            assert(!buffer.row_blank(next));
        }
    }
}

/// Running all lines above leaves out the line of the cursor: what runs starts
/// at the start of the buffer and ends above that line, and what is left out
/// between the two is blank. Where all lines above are blank, nothing runs.
pub proof fn law_above_leaves_out_cursor_row(
    buffer: BufferSnapshot,
    range: Range<Point>,
    node: Option<usize>,
)
    requires
        buffer.wf(),
    ensures
        forall|k: int|
            0 <= k < code_ranges(buffer, range, ReplRunMode::Above, node).len() ==> {
                let ran = #[trigger] code_ranges(buffer, range, ReplRunMode::Above, node)[k];
                &&& ran.start == (Point { row: 0, column: 0 })
                &&& ran.end.row < range.start.row
                &&& ran.end.column == buffer.row_len(ran.end.row as int)
                &&& forall|row: int|
                    ran.end.row < row < range.start.row ==> #[trigger] buffer.row_blank(row)
            },
        (forall|row: int| 0 <= row < range.start.row ==> #[trigger] buffer.row_blank(row))
            ==> code_ranges(buffer, range, ReplRunMode::Above, node).len() == 0,
{
    if range.start.row > 0 {
        let snippet = cell(buffer, 0, range.start.row - 1);
        lemma_trimmed_end(buffer, 0, range.start.row - 1);
        lemma_row_len(buffer, snippet.end.row as int);
    }
}

proof fn lemma_row_len(buffer: BufferSnapshot, row: int)
    requires
        buffer.wf(),
    ensures
        buffer.row_len(row) <= u32::MAX,
{
}

/// Running everything runs all the code of a buffer: what runs starts at the
/// start of the buffer, and what follows its end is blank. This holds where some
/// row is not blank; otherwise nothing runs.
pub proof fn law_all_runs_everything(
    buffer: BufferSnapshot,
    range: Range<Point>,
    node: Option<usize>,
)
    requires
        buffer.wf(),
    ensures
        forall|k: int|
            0 <= k < code_ranges(buffer, range, ReplRunMode::All, node).len() ==> {
                let ran = #[trigger] code_ranges(buffer, range, ReplRunMode::All, node)[k];
                &&& ran.start == (Point { row: 0, column: 0 })
                &&& ran.end.column == buffer.row_len(ran.end.row as int)
                &&& forall|row: int|
                    ran.end.row < row ==> #[trigger] buffer.row_blank(row)
            },
        (forall|row: int| #[trigger] buffer.row_blank(row)) ==> code_ranges(
            buffer,
            range,
            ReplRunMode::All,
            node,
        ).len() == 0,
{
    let snippet = cell(buffer, 0, buffer.last_row());
    lemma_trimmed_end(buffer, 0, buffer.last_row());
    lemma_row_len(buffer, snippet.end.row as int);
    lemma_next_code_row(buffer, snippet.end.row + 1);
    assert forall|row: int| snippet.end.row < row implies #[trigger] buffer.row_blank(row) by {}
    let next = next_code_row(buffer, snippet.end.row + 1);
    if next < buffer.rows().len() {
        assert(buffer.row_blank(next));
    }
}

/// A bare cursor runs a single cell in cell mode: the one with the row of the
/// cursor in it.
pub proof fn law_cursor_runs_one_cell(buffer: BufferSnapshot, at: Point, node: Option<usize>)
    requires
        buffer.wf(),
        has_cells(buffer),
        at.row < buffer.rows().len(),
    ensures
        ({
            let ran = code_ranges(buffer, Range { start: at, end: at }, ReplRunMode::Cell, node);
            &&& ran.len() == 1
            &&& ran[0].start == (Point {
                row: cell_start(buffer, marks_of(buffer), at.row as int) as u32,
                column: 0,
            })
            &&& ran[0].start.row <= at.row
            &&& !buffer.row_blank(at.row as int) ==> at.row <= ran[0].end.row
        }),
{
    let range = Range { start: at, end: at };
    let cells = cells_at(buffer, range);
    law_cells_divide_the_rows(buffer, range);
    crate::cells::law_cell_below(buffer, range);
    assert(cells.len() == 1);
    if !buffer.row_blank(at.row as int) {
        let k = choose|k: int|
            0 <= k < cells.len() && (#[trigger] cells[k]).start.row <= at.row <= cells[k].end.row;
        assert(k == 0);
    }
}

/// Running the cells above leaves out the cell of the cursor, and nothing else
/// above it: all that runs ends above the first row of that cell, and every row
/// above it that is not blank runs.
pub proof fn law_above_cells_leaves_out_cursor_cell(
    buffer: BufferSnapshot,
    range: Range<Point>,
    node: Option<usize>,
)
    requires
        buffer.wf(),
        has_cells(buffer),
        range.start.row < buffer.rows().len(),
    ensures
        ({
            let ran = code_ranges(buffer, range, ReplRunMode::AboveCells, node);
            let current = cell_start(buffer, marks_of(buffer), range.start.row as int);
            &&& forall|k: int| 0 <= k < ran.len() ==> (#[trigger] ran[k]).end.row < current
            &&& forall|row: int|
                0 <= row < current && !(#[trigger] buffer.row_blank(row)) ==> exists|k: int|
                    0 <= k < ran.len() && (#[trigger] ran[k]).start.row <= row <= ran[k].end.row
        }),
{
    let down = cells_down_to(range.start.row);
    let cells = cells_at(buffer, down);
    let marks = marks_of(buffer);
    let row = range.start.row as int;
    let ran = code_ranges(buffer, range, ReplRunMode::AboveCells, node);
    let current = cell_start(buffer, marks, row);
    law_cells_divide_the_rows(buffer, down);
    crate::cells::law_cell_below(buffer, down);
    let n = cells.len() as int;
    let last = cells[n - 1];
    crate::cells::lemma_last_cell(buffer, down);
    lemma_cell_start(buffer, marks, row);
    lemma_cell_start_is(buffer, marks, row, last.start.row as int);
    assert(current == last.start.row);
    assert forall|k: int| 0 <= k < ran.len() implies (#[trigger] ran[k]).end.row < current by {
        assert(ran[k] == cells[k]);
    }
    assert forall|r: int| 0 <= r < current && !(#[trigger] buffer.row_blank(r)) implies exists|
        k: int,
    | 0 <= k < ran.len() && (#[trigger] ran[k]).start.row <= r <= ran[k].end.row by {
        let k = choose|k: int|
            0 <= k < cells.len() && (#[trigger] cells[k]).start.row <= r <= cells[k].end.row;
        assert(k < n - 1);
        assert(ran[k] == cells[k]);
    }
}

/// A Markdown text runs the same code blocks in every mode, and never moves on
/// to a next cell.
pub proof fn law_markdown_ignores_mode(
    buffer: BufferSnapshot,
    range: Range<Point>,
    injections: Seq<Injection>,
    kernel_languages: Seq<String>,
    a: ReplRunMode,
    b: ReplRunMode,
    node: Option<usize>,
)
    requires
        is_markdown(buffer),
    ensures
        ranges_to_run(buffer, range, injections, kernel_languages, a, node) == ranges_to_run(
            buffer,
            range,
            injections,
            kernel_languages,
            b,
            node,
        ),
        next_cell(buffer, range, a) is None,
{
}

/// Whether two positions lie in the same language.
pub open spec fn share_language(buffer: BufferSnapshot, a: Point, b: Point) -> bool {
    buffer.language_of(a) matches Some(x) && buffer.language_of(b) matches Some(y) && x.id == y.id
}

/// That what runs is one range of whole rows if both its ends lie in the same
/// language, and nothing otherwise.
pub open spec fn runs_rows(
    buffer: BufferSnapshot,
    ran: Seq<Range<Point>>,
    first: int,
    last: int,
) -> bool {
    let start = Point { row: first as u32, column: 0 };
    let end = Point { row: last as u32, column: text_len(buffer.rows()[last]) as u32 };
    if share_language(buffer, start, end) {
        ran.len() == 1 && ran[0].start == start && ran[0].end == end
    } else {
        ran.len() == 0
    }
}

proof fn lemma_trimmed_end_is(buffer: BufferSnapshot, start: int, end: int, last: int)
    requires
        start <= last <= end,
        !buffer.row_blank(last),
        forall|row: int| last < row <= end ==> #[trigger] buffer.row_blank(row),
    ensures
        trimmed_end(buffer, start, end) == last,
{
    lemma_trimmed_end(buffer, start, end);
    let found = trimmed_end(buffer, start, end);
    if found > last {
        assert(buffer.row_blank(found));
    } else if found < last {
        assert(buffer.row_blank(last));
    }
}

proof fn lemma_next_code_row_is(buffer: BufferSnapshot, row: int, next: int)
    requires
        row <= next <= buffer.rows().len(),
        next < buffer.rows().len() ==> !buffer.row_blank(next),
        forall|k: int| row <= k < next ==> #[trigger] buffer.row_blank(k),
    ensures
        next_code_row(buffer, row) == next,
    decreases next - row,
{
    if row < next {
        assert(buffer.row_blank(row));
        lemma_next_code_row_is(buffer, row + 1, next);
    }
}

/// A row that is not blank is a row of the buffer.
proof fn lemma_code_is_in_buffer(buffer: BufferSnapshot, row: int)
    requires
        buffer.wf(),
        0 <= row,
        !buffer.row_blank(row),
    ensures
        row < buffer.rows().len() <= u32::MAX,
        buffer.row_len(row) == text_len(buffer.rows()[row]) <= u32::MAX,
{
    if row >= buffer.rows().len() {
        assert(buffer.row_text(row).len() == 0);
    }
}

/// A selection runs the rows that it lies in, from the start of its first row to
/// the end of its last row that is not blank, and no row above or below, whether
/// the mode is that of blocks or that of lines.
pub proof fn law_selection_runs_its_rows(
    buffer: BufferSnapshot,
    range: Range<Point>,
    mode: ReplRunMode,
    last: int,
    node: Option<usize>,
)
    requires
        buffer.wf(),
        mode == ReplRunMode::Block || mode == ReplRunMode::Line,
        range.start != range.end,
        range.start.row <= last <= range.end.row,
        !buffer.row_blank(last),
        forall|row: int| last < row <= range.end.row ==> #[trigger] buffer.row_blank(row),
    ensures
        runs_rows(buffer, code_ranges(buffer, range, mode, node), range.start.row as int, last),
{
    lemma_code_is_in_buffer(buffer, last);
    lemma_trimmed_end_is(buffer, range.start.row as int, range.end.row as int, last);
    let selected = cell(buffer, range.start.row as int, range.end.row as int);
    assert(!all_blank(buffer, selected));
}

/// A selection of nothing but blank rows runs the first row below it that is not
/// blank, and nothing if there is none.
pub proof fn law_blank_selection_runs_next_row(
    buffer: BufferSnapshot,
    range: Range<Point>,
    mode: ReplRunMode,
    next: int,
    node: Option<usize>,
)
    requires
        buffer.wf(),
        mode == ReplRunMode::Block || mode == ReplRunMode::Line,
        range.start != range.end,
        range.start.row <= range.end.row < next <= buffer.rows().len(),
        forall|row: int| range.start.row <= row < next ==> #[trigger] buffer.row_blank(row),
    ensures
        next < buffer.rows().len() && !buffer.row_blank(next) ==> runs_rows(
            buffer,
            code_ranges(buffer, range, mode, node),
            next,
            next,
        ),
        next == buffer.rows().len() ==> code_ranges(buffer, range, mode, node).len() == 0,
{
    let selected = cell(buffer, range.start.row as int, range.end.row as int);
    lemma_trimmed_end(buffer, range.start.row as int, range.end.row as int);
    assert(all_blank(buffer, selected));
    if next == buffer.rows().len() || !buffer.row_blank(next) {
        lemma_next_code_row_is(buffer, selected.end.row + 1, next);
    }
    if next < buffer.rows().len() && !buffer.row_blank(next) {
        lemma_code_is_in_buffer(buffer, next);
    }
}

/// Running everything runs exactly one range in a buffer with any code: from the
/// start of the buffer to the end of the last row that is not blank.
pub proof fn law_all_runs_to_the_last_row(
    buffer: BufferSnapshot,
    range: Range<Point>,
    last: int,
    node: Option<usize>,
)
    requires
        buffer.wf(),
        0 <= last,
        !buffer.row_blank(last),
        forall|row: int| last < row ==> #[trigger] buffer.row_blank(row),
    ensures
        runs_rows(buffer, code_ranges(buffer, range, ReplRunMode::All, node), 0, last),
{
    lemma_code_is_in_buffer(buffer, last);
    lemma_trimmed_end_is(buffer, 0, buffer.last_row(), last);
    assert(!all_blank(buffer, cell(buffer, 0, buffer.last_row())));
}

/// Running all lines above runs exactly one range if any line above has code:
/// from the start of the buffer to the end of the last row above the cursor that
/// is not blank.
pub proof fn law_above_runs_to_the_last_row_above(
    buffer: BufferSnapshot,
    range: Range<Point>,
    last: int,
    node: Option<usize>,
)
    requires
        buffer.wf(),
        0 <= last < range.start.row,
        !buffer.row_blank(last),
        forall|row: int| last < row < range.start.row ==> #[trigger] buffer.row_blank(row),
    ensures
        runs_rows(buffer, code_ranges(buffer, range, ReplRunMode::Above, node), 0, last),
{
    lemma_code_is_in_buffer(buffer, last);
    lemma_trimmed_end_is(buffer, 0, range.start.row - 1, last);
    assert(!all_blank(buffer, cell(buffer, 0, range.start.row - 1)));
}

/// A bare cursor in line mode runs the smallest complete statement there, if any
/// of its rows has code and both its ends lie in the same language. If none has,
/// the first row below it that is not blank runs, or nothing.
pub proof fn law_cursor_runs_its_statement(
    buffer: BufferSnapshot,
    at: Point,
    row: int,
    node: Option<usize>,
)
    requires
        buffer.wf(),
        buffer.holds_point(at),
        lands(buffer, line_place(buffer, Range { start: at, end: at }), node),
    ensures
        ({
            let range = Range { start: at, end: at };
            let line = runnable_line(buffer, range, node);
            let ran = code_ranges(buffer, range, ReplRunMode::Line, node);
            &&& line.start.row <= row <= line.end.row && !buffer.row_blank(row) ==> (
            if share_language(buffer, line.start, line.end) {
                ran == seq![line]
            } else {
                ran.len() == 0
            })
            &&& line.end.row < row < buffer.rows().len() && !buffer.row_blank(row) && (forall|
                k: int,
            |
                line.start.row <= k < row ==> #[trigger] buffer.row_blank(k)) ==> runs_rows(
                buffer,
                ran,
                row,
                row,
            )
            &&& (forall|k: int| line.start.row <= k ==> #[trigger] buffer.row_blank(k))
                ==> ran.len() == 0
        }),
{
    let range = Range { start: at, end: at };
    let line = runnable_line(buffer, range, node);
    law_line_stays_in_buffer(buffer, range, node);
    if line.start.row <= row <= line.end.row && !buffer.row_blank(row) {
        assert(!all_blank(buffer, line));
    }
    if line.end.row < row < buffer.rows().len() && !buffer.row_blank(row) && (forall|k: int|
        line.start.row <= k < row ==> #[trigger] buffer.row_blank(k)) {
        assert(all_blank(buffer, line));
        lemma_next_code_row_is(buffer, line.end.row + 1, row);
        lemma_code_is_in_buffer(buffer, row);
    }
    if forall|k: int| line.start.row <= k ==> #[trigger] buffer.row_blank(k) {
        lemma_next_code_row(buffer, line.end.row + 1);
        assert(all_blank(buffer, line));
    }
}

/// A bare cursor in block mode runs the block around it, if there is one and both
/// its ends lie in the same language; otherwise the first row from that of the
/// cursor on that is not blank, or nothing if there is none.
pub proof fn law_cursor_runs_its_block(
    buffer: BufferSnapshot,
    at: Point,
    next: int,
    node: Option<usize>,
)
    requires
        buffer.wf(),
        at.row <= next <= buffer.rows().len(),
        next < buffer.rows().len() ==> !buffer.row_blank(next),
        forall|row: int| at.row <= row < next ==> #[trigger] buffer.row_blank(row),
    ensures
        ({
            let range = Range { start: at, end: at };
            let ran = code_ranges(buffer, range, ReplRunMode::Block, node);
            if block_at(buffer, range, node) matches Some(block) && share_language(
                buffer,
                block.start,
                block.end,
            ) {
                ran.len() == 1 && Some(ran[0]) == block_at(buffer, range, node)
            } else if next < buffer.rows().len() {
                runs_rows(buffer, ran, next, next)
            } else {
                ran.len() == 0
            }
        }),
{
    let row = at.row as int;
    if next < buffer.rows().len() {
        lemma_code_is_in_buffer(buffer, next);
    }
    if next == row {
        if row < buffer.rows().len() {
            assert(!all_blank(buffer, cell(buffer, row, row)));
        } else {
            assert(buffer.row_text(row).len() == 0);
            assert(all_blank(buffer, cell(buffer, row, row)));
            lemma_next_code_row(buffer, row + 1);
        }
    } else {
        assert(buffer.row_blank(row));
        assert(all_blank(buffer, cell(buffer, row, row)));
        lemma_next_code_row_is(buffer, row + 1, next);
    }
}

/// Cell mode runs the cells of the range and goes on to the cell below it; no
/// mode but those of cells goes on anywhere.
pub proof fn law_cell_mode_runs_the_cells(
    buffer: BufferSnapshot,
    range: Range<Point>,
    mode: ReplRunMode,
    node: Option<usize>,
)
    ensures
        code_ranges(buffer, range, ReplRunMode::Cell, node) == cells_at(buffer, range),
        !is_markdown(buffer) ==> next_cell(buffer, range, ReplRunMode::Cell) == cell_below(
            buffer,
            range,
        ),
        mode != ReplRunMode::Cell && mode != ReplRunMode::AboveCells ==> next_cell(
            buffer,
            range,
            mode,
        ) is None,
        (buffer.main_language() matches Some(language) ==> language.line_comment_prefixes@.len()
            == 0) ==> {
            &&& code_ranges(buffer, range, ReplRunMode::Cell, node).len() == 0
            &&& code_ranges(buffer, range, ReplRunMode::AboveCells, node).len() == 0
            &&& next_cell(buffer, range, mode) is None
        },
{
}

/// Running the cells above runs what a selection from the start of the buffer to
/// the row of the cursor would run in cell mode, without the last cell, and goes
/// on where that would. If the cursor is in the first cell, nothing runs.
pub proof fn law_above_cells_is_cell_mode_without_last(
    buffer: BufferSnapshot,
    language: Language,
    range: Range<Point>,
    mark: int,
    node: Option<usize>,
)
    requires
        buffer.wf(),
        buffer.main_language() == Some(language),
        language.line_comment_prefixes@.len() > 0,
        range.start.row < buffer.rows().len(),
    ensures
        ({
            let down = Range {
                start: Point { row: 0, column: 0 },
                end: Point { row: range.start.row, column: 0 },
            };
            let all = code_ranges(buffer, down, ReplRunMode::Cell, node);
            let ran = code_ranges(buffer, range, ReplRunMode::AboveCells, node);
            &&& 0 < mark <= range.start.row && has_cell_mark(buffer, language, mark) ==> {
                &&& all == ran.push(all.last())
                &&& ran.len() > 0
                &&& next_cell(buffer, range, ReplRunMode::AboveCells) == next_cell(
                    buffer,
                    down,
                    ReplRunMode::Cell,
                )
            }
            &&& (forall|row: int|
                0 < row <= range.start.row ==> !#[trigger] has_cell_mark(buffer, language, row))
                ==> {
                &&& ran.len() == 0
                &&& next_cell(buffer, range, ReplRunMode::AboveCells) is None
            }
        }),
{
    let down = Range {
        start: Point { row: 0, column: 0 },
        end: Point { row: range.start.row, column: 0 },
    };
    let all = code_ranges(buffer, down, ReplRunMode::Cell, node);
    let ran = code_ranges(buffer, range, ReplRunMode::AboveCells, node);
    assert(down == cells_down_to(range.start.row));
    law_cells_meet_the_range(buffer, language, down);
    if 0 < mark <= range.start.row && has_cell_mark(buffer, language, mark) {
        let k = choose|k: int| 0 < k < all.len() && (#[trigger] all[k]).start.row == mark;
        assert(all =~= ran.push(all.last()));
    }
    if forall|row: int|
        0 < row <= range.start.row ==> !#[trigger] has_cell_mark(buffer, language, row) {
        if all.len() > 1 {
            assert(has_cell_mark(buffer, language, all[1].start.row as int));
        }
    }
}

/// A Markdown text runs the injections that a kernel runs, each as a whole and in
/// order: one more injection adds its own range behind the others if its language
/// is that of a kernel, and nothing otherwise.
pub proof fn law_markdown_runs_supported_blocks(
    buffer: BufferSnapshot,
    range: Range<Point>,
    injections: Seq<Injection>,
    more: Injection,
    kernel_languages: Seq<String>,
    mode: ReplRunMode,
    node: Option<usize>,
)
    requires
        buffer.main_language() matches Some(language) && language.name.0@ == "Markdown"@,
    ensures
        ranges_to_run(buffer, range, Seq::empty(), kernel_languages, mode, node).len() == 0,
        ({
            let before = ranges_to_run(buffer, range, injections, kernel_languages, mode, node);
            let all = ranges_to_run(
                buffer,
                range,
                injections.push(more),
                kernel_languages,
                mode,
                node,
            );
            let runs = exists|i: int, j: int|
                0 <= i < kernel_languages.len() && 0 <= j < more.language.kernel_languages@.len()
                    && (#[trigger] kernel_languages[i])@ == (
                #[trigger] more.language.kernel_languages@[j])@;
            if runs {
                all == before.push(
                    Range {
                        start: buffer.point_at(more.range.start as int),
                        end: buffer.point_at(more.range.end as int),
                    },
                )
            } else {
                all == before
            }
        }),
        next_cell(buffer, range, mode) is None,
        run_place(buffer, range, mode) is None,
{
    let keep = |injection: Injection| supported(injection.language, kernel_languages);
    reveal(Seq::filter);
    assert(injections.push(more).drop_last() =~= injections);
    let before = ranges_to_run(buffer, range, injections, kernel_languages, mode, node);
    let all = ranges_to_run(buffer, range, injections.push(more), kernel_languages, mode, node);
    let kept = injections.filter(keep);
    let runs = exists|i: int, j: int|
        0 <= i < kernel_languages.len() && 0 <= j < more.language.kernel_languages@.len() && (
        #[trigger] kernel_languages[i])@ == (#[trigger] more.language.kernel_languages@[j])@;
    if runs {
        let (i, j) = choose|i: int, j: int|
            0 <= i < kernel_languages.len() && 0 <= j < more.language.kernel_languages@.len() && (
            #[trigger] kernel_languages[i])@ == (#[trigger] more.language.kernel_languages@[j])@;
        assert(more.language.runs_on(kernel_languages[i]@));
        assert(keep(more));
        assert(injections.push(more).filter(keep) =~= kept.push(more));
        assert(all =~= before.push(injection_range(buffer, more)));
    } else {
        if supported(more.language, kernel_languages) {
            let i = choose|i: int|
                0 <= i < kernel_languages.len() && more.language.runs_on(
                    (#[trigger] kernel_languages[i])@,
                );
            let j = choose|j: int|
                0 <= j < more.language.kernel_languages@.len()
                    && #[trigger] more.language.kernel_languages@[j]@ == kernel_languages[i]@;
            assert(kernel_languages[i]@ == more.language.kernel_languages@[j]@);
        }
        assert(!keep(more));
        assert(injections.push(more).filter(keep) =~= kept);
        assert(all =~= before);
    }
}

/// Only a Markdown text runs by its injections: any other text runs by the mode
/// alone.
pub proof fn law_other_texts_run_by_mode(
    buffer: BufferSnapshot,
    range: Range<Point>,
    injections: Seq<Injection>,
    kernel_languages: Seq<String>,
    mode: ReplRunMode,
    node: Option<usize>,
)
    requires
        buffer.main_language() matches Some(language) ==> language.name.0@ != "Markdown"@,
    ensures
        ranges_to_run(buffer, range, injections, kernel_languages, mode, node) == code_ranges(
            buffer,
            range,
            mode,
            node,
        ),
{
}

/// A syntax node is looked for at the cursor, in block and line mode and only for
/// a bare cursor. In line mode the place is that of the line, on the row of the
/// cursor if that has code: at the cursor, or at the last character of the row.
pub proof fn law_node_is_looked_for_at_the_cursor(
    buffer: BufferSnapshot,
    range: Range<Point>,
    mode: ReplRunMode,
)
    requires
        buffer.main_language() matches Some(language) ==> language.name.0@ != "Markdown"@,
    ensures
        range.start != range.end ==> run_place(buffer, range, mode) is None,
        mode != ReplRunMode::Block && mode != ReplRunMode::Line ==> run_place(buffer, range, mode)
            is None,
        range.start == range.end ==> run_place(buffer, range, ReplRunMode::Block) == Some(
            buffer.offset_of(range.start),
        ),
        range.start == range.end ==> run_place(buffer, range, ReplRunMode::Line) == line_place(
            buffer,
            range,
        ),
        ({
            let row = range.start.row as int;
            let len = text_len(buffer.rows()[row]) as int;
            range.start == range.end && row < buffer.rows().len() && !buffer.row_blank_or_comment(
                row,
            ) && len <= u32::MAX ==> run_place(buffer, range, ReplRunMode::Line) == Some(
                buffer.offset_of(Point { row: range.start.row, column: 0 }) + (
                if range.start.column < len {
                    range.start.column as int
                } else {
                    len - 1
                }),
            )
        }),
{
    let row = range.start.row as int;
    if row < buffer.rows().len() && !buffer.row_blank_or_comment(row) {
        assert(buffer.rows()[row].len() > 0);
    }
}

} // verus!
