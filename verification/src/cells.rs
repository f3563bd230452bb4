//! Cells: the parts of a buffer between the lines that mark the start of a
//! cell, such as `# %%` in Python.
use std::ops::Range;

use vstd::math::{max, min};
use vstd::prelude::*;

use crate::buffer::BufferSnapshot;
use crate::language::Language;
use crate::point::Point;
use crate::text::{chars_of, text_len};

verus! {

/// The last row of the cell that goes from `start` to `end` once the blank rows
/// at its end are taken off. Row `start` is never taken off.
pub open spec fn trimmed_end(buffer: BufferSnapshot, start: int, end: int) -> int
    decreases end - start,
{
    if end > start && buffer.row_blank(end) {
        trimmed_end(buffer, start, end - 1)
    } else {
        end
    }
}

/// The cell with the rows from `start` to `end`, without the blank rows at its
/// end.
pub open spec fn cell(buffer: BufferSnapshot, start: int, end: int) -> Range<Point> {
    let last = trimmed_end(buffer, start, end);
    Range {
        start: Point { row: start as u32, column: 0 },
        end: Point { row: last as u32, column: buffer.row_len(last) as u32 },
    }
}

/// What a line that starts a cell begins with, for each way to begin a line
/// comment.
pub open spec fn cell_marks(language: Language) -> Seq<Seq<char>> {
    Seq::new(
        language.line_comment_prefixes@.len(),
        |i: int| language.line_comment_prefixes@[i]@ + "%%"@,
    )
}

/// Whether a row starts a cell.
pub open spec fn starts_cell(buffer: BufferSnapshot, marks: Seq<Seq<char>>, row: int) -> bool {
    exists|i: int| 0 <= i < marks.len() && #[trigger] buffer.row_starts_with(row, marks[i])
}

/// The first row of the cell that row `row` belongs to: the last row up to it
/// that starts a cell, or the first row of the buffer.
pub open spec fn cell_start(buffer: BufferSnapshot, marks: Seq<Seq<char>>, row: int) -> int
    decreases row,
{
    if row <= 0 || starts_cell(buffer, marks, row) {
        row
    } else {
        cell_start(buffer, marks, row - 1)
    }
}

/// The rows below row `above` and down to row `last` that start a cell, in
/// order.
pub open spec fn starts_between(
    buffer: BufferSnapshot,
    marks: Seq<Seq<char>>,
    above: int,
    last: int,
) -> Seq<int>
    decreases last - above,
{
    if last <= above {
        Seq::empty()
    } else {
        let head = starts_between(buffer, marks, above, last - 1);
        if starts_cell(buffer, marks, last) {
            head.push(last)
        } else {
            head
        }
    }
}

/// The first row from `row` on that starts a cell, or the row behind the last
/// one.
pub open spec fn next_start(buffer: BufferSnapshot, marks: Seq<Seq<char>>, row: int) -> int
    decreases buffer.rows().len() - row,
{
    if row >= buffer.rows().len() || starts_cell(buffer, marks, row) {
        row
    } else {
        next_start(buffer, marks, row + 1)
    }
}

/// The rows on which the cells that meet the rows `first..=last` start.
pub open spec fn cell_starts(
    buffer: BufferSnapshot,
    marks: Seq<Seq<char>>,
    first: int,
    last: int,
) -> Seq<int> {
    seq![cell_start(buffer, marks, first)] + starts_between(
        buffer,
        marks,
        first,
        min(last, buffer.last_row()),
    )
}

/// The row behind the cells that meet the rows `first..=last`.
pub open spec fn cells_stop(
    buffer: BufferSnapshot,
    marks: Seq<Seq<char>>,
    first: int,
    last: int,
) -> int {
    min(
        next_start(buffer, marks, max(first, last) + 1),
        buffer.rows().len() as int,
    )
}

/// The row behind cell `k`, blank rows at its end not taken off.
pub open spec fn boundary(starts: Seq<int>, stop: int, k: int) -> int {
    if k + 1 < starts.len() {
        starts[k + 1]
    } else {
        stop
    }
}

/// The cells that start on the rows `starts`, the last of which ends in front of
/// row `stop`.
pub open spec fn cells_from(buffer: BufferSnapshot, starts: Seq<int>, stop: int) -> Seq<
    Range<Point>,
> {
    Seq::new(
        starts.len(),
        |k: int| cell(buffer, starts[k], boundary(starts, stop, k) - 1),
    )
}

/// Whether the lines of the buffer can start cells.
pub open spec fn has_cells(buffer: BufferSnapshot) -> bool {
    match buffer.main_language() {
        Some(language) => language.line_comment_prefixes@.len() > 0,
        None => false,
    }
}

/// What the lines of the buffer that start cells begin with.
pub open spec fn marks_of(buffer: BufferSnapshot) -> Seq<Seq<char>> {
    cell_marks(buffer.main_language()->0)
}

/// The cells that meet the rows of a range. In a buffer whose language has no
/// line comments there are none.
pub open spec fn cells_at(buffer: BufferSnapshot, range: Range<Point>) -> Seq<Range<Point>> {
    if has_cells(buffer) {
        let marks = marks_of(buffer);
        let first = range.start.row as int;
        let last = range.end.row as int;
        cells_from(
            buffer,
            cell_starts(buffer, marks, first, last),
            cells_stop(buffer, marks, first, last),
        )
    } else {
        Seq::empty()
    }
}

/// The start of the first cell below the rows of a range.
pub open spec fn cell_below(buffer: BufferSnapshot, range: Range<Point>) -> Option<Point> {
    if has_cells(buffer) {
        let next = next_start(
            buffer,
            marks_of(buffer),
            max(range.start.row as int, range.end.row as int) + 1,
        );
        if next < buffer.rows().len() {
            Some(Point { row: next as u32, column: 0 })
        } else {
            None
        }
    } else {
        None
    }
}

/// The cell with the rows from `start_row` to `end_row`, without the blank rows
/// at its end.
pub fn cell_range(buffer: &BufferSnapshot, start_row: u32, end_row: u32) -> (r: Range<Point>)
    requires
        buffer.wf(),
    ensures
        r == cell(*buffer, start_row as int, end_row as int),
        r.start == (Point { row: start_row, column: 0 }),
        r.end.column == buffer.row_len(r.end.row as int),
        r.end.row <= end_row,
        end_row <= start_row ==> r.end.row == end_row,
        start_row <= end_row ==> start_row <= r.end.row,
        r.end.row > start_row ==> !buffer.row_blank(r.end.row as int),
        forall|row: int| r.end.row < row <= end_row ==> #[trigger] buffer.row_blank(row),
{
    let mut last: u32 = end_row;
    while last > start_row && buffer.is_line_blank(last)
        invariant
            last <= end_row,
            end_row <= start_row ==> last == end_row,
            start_row <= end_row ==> start_row <= last,
            trimmed_end(*buffer, start_row as int, end_row as int) == trimmed_end(
                *buffer,
                start_row as int,
                last as int,
            ),
            forall|row: int| last < row <= end_row ==> #[trigger] buffer.row_blank(row),
        decreases last,
    {
        last -= 1;
    }
    Range { start: Point::new(start_row, 0), end: Point::new(last, buffer.line_len(last)) }
}

/// What a line that starts a cell begins with.
fn cell_prefixes(language: &Language) -> (r: Vec<Vec<char>>)
    ensures
        Seq::new(r@.len(), |i: int| r@[i]@) == cell_marks(*language),
{
    let mut marks: Vec<Vec<char>> = Vec::new();
    let mut i: usize = 0;
    proof {
        reveal_strlit("%%");
    }
    while i < language.line_comment_prefixes.len()
        invariant
            i <= language.line_comment_prefixes@.len(),
            marks@.len() == i,
            "%%"@ =~= seq!['%', '%'],
            forall|k: int|
                0 <= k < i ==> (#[trigger] marks@[k])@ == language.line_comment_prefixes@[k]@
                    + "%%"@,
        decreases language.line_comment_prefixes@.len() - i,
    {
        let mut mark: Vec<char> = chars_of(language.line_comment_prefixes[i].as_str());
        mark.push('%');
        mark.push('%');
        assert(mark@ =~= language.line_comment_prefixes@[i as int]@ + "%%"@);
        marks.push(mark);
        i += 1;
    }
    assert(Seq::new(marks@.len(), |i: int| marks@[i]@) =~= cell_marks(*language));
    marks
}

/// Whether a row starts a cell.
fn is_cell_start(buffer: &BufferSnapshot, marks: &Vec<Vec<char>>, row: u32) -> (r: bool)
    ensures
        r == starts_cell(*buffer, Seq::new(marks@.len(), |i: int| marks@[i]@), row as int),
{
    let ghost texts = Seq::new(marks@.len(), |i: int| marks@[i]@);
    let mut i: usize = 0;
    while i < marks.len()
        invariant
            i <= marks@.len(),
            texts == Seq::new(marks@.len(), |i: int| marks@[i]@),
            forall|k: int| 0 <= k < i ==> !#[trigger] buffer.row_starts_with(row as int, texts[k]),
        decreases marks@.len() - i,
    {
        if buffer.contains_str_at_row(row, &marks[i]) {
            assert(buffer.row_starts_with(row as int, texts[i as int]));
            return true;
        }
        i += 1;
    }
    false
}

proof fn lemma_starts_between(
    buffer: BufferSnapshot,
    marks: Seq<Seq<char>>,
    above: int,
    last: int,
)
    ensures
        forall|k: int|
            #![trigger starts_between(buffer, marks, above, last)[k]]
            0 <= k < starts_between(buffer, marks, above, last).len() ==> above < starts_between(
                buffer,
                marks,
                above,
                last,
            )[k] <= last && starts_cell(
                buffer,
                marks,
                starts_between(buffer, marks, above, last)[k],
            ),
        forall|k: int, l: int|
            #![trigger starts_between(buffer, marks, above, last)[k], starts_between(buffer, marks, above, last)[l]]
            0 <= k < l < starts_between(buffer, marks, above, last).len() ==> starts_between(
                buffer,
                marks,
                above,
                last,
            )[k] < starts_between(buffer, marks, above, last)[l],
        forall|row: int|
            above < row <= last && #[trigger] starts_cell(buffer, marks, row) ==> starts_between(
                buffer,
                marks,
                above,
                last,
            ).contains(row),
    decreases last - above,
{
    if last > above {
        lemma_starts_between(buffer, marks, above, last - 1);
        let head = starts_between(buffer, marks, above, last - 1);
        let all = starts_between(buffer, marks, above, last);
        assert forall|row: int|
            above < row <= last && #[trigger] starts_cell(buffer, marks, row) implies all.contains(
            row,
        ) by {
            if row == last {
                assert(all[all.len() - 1] == last);
            } else {
                let k = choose|k: int| 0 <= k < head.len() && head[k] == row;
                assert(all[k] == row);
            }
        }
    }
}

/// The cells that meet the rows of a range, and the start of the first cell
/// below it.
pub fn jupytext_cells(buffer: &BufferSnapshot, range: Range<Point>) -> (r: (
    Vec<Range<Point>>,
    Option<Point>,
))
    requires
        buffer.wf(),
        range.start.row < u32::MAX,
    ensures
        r.0@ == cells_at(*buffer, range),
        r.1 == cell_below(*buffer, range),
{
    let language = match buffer.language() {
        Some(language) => language,
        None => {
            return (Vec::new(), None);
        },
    };
    if language.line_comment_prefixes.len() == 0 {
        return (Vec::new(), None);
    }
    let prefixes = cell_prefixes(language);
    let ghost marks = marks_of(*buffer);
    assert(marks == Seq::new(prefixes@.len(), |i: int| prefixes@[i]@));
    let first: u32 = range.start.row;
    let last: u32 = range.end.row;

    let mut start: u32 = first;
    while start > 0 && !is_cell_start(buffer, &prefixes, start)
        invariant
            marks == Seq::new(prefixes@.len(), |i: int| prefixes@[i]@),
            cell_start(*buffer, marks, first as int) == cell_start(*buffer, marks, start as int),
        decreases start,
    {
        start -= 1;
    }

    let max_row: u32 = buffer.max_row();
    let mut snippets: Vec<Range<Point>> = Vec::new();
    let mut row: u32 = first + 1;
    let ghost mut starts: Seq<int> = seq![start as int];
    assert(starts_between(*buffer, marks, first as int, min(first as int, last as int))
        =~= Seq::<int>::empty());
    while row <= max_row
        invariant
            buffer.wf(),
            marks == Seq::new(prefixes@.len(), |i: int| prefixes@[i]@),
            marks == marks_of(*buffer),
            has_cells(*buffer),
            first == range.start.row,
            last == range.end.row,
            max_row == buffer.last_row(),
            first < row,
            row <= max_row + 1 || row == first + 1,
            starts == seq![cell_start(*buffer, marks, first as int)] + starts_between(
                *buffer,
                marks,
                first as int,
                min(row - 1, last as int),
            ),
            starts.len() > 0,
            start == starts.last(),
            snippets@.len() == starts.len() - 1,
            forall|k: int|
                0 <= k < snippets@.len() ==> #[trigger] snippets@[k] == cell(
                    *buffer,
                    starts[k],
                    starts[k + 1] - 1,
                ),
            row > last ==> next_start(*buffer, marks, max(first as int, last as int) + 1)
                == next_start(*buffer, marks, row as int),
        decreases max_row + 1 - row,
    {
        let ghost between = starts_between(
            *buffer,
            marks,
            first as int,
            min(row - 1, last as int),
        );
        if is_cell_start(buffer, &prefixes, row) {
            snippets.push(cell_range(buffer, start, row - 1));
            if row <= last {
                start = row;
                proof {
                    starts = starts.push(row as int);
                    assert(starts_between(*buffer, marks, first as int, row as int)
                        == between.push(row as int));
                    assert(starts =~= seq![cell_start(*buffer, marks, first as int)]
                        + starts_between(*buffer, marks, first as int, row as int));
                }
            } else {
                proof {
                    assert(min(last as int, buffer.last_row()) == last);
                    assert(min(row - 1, last as int) == last);
                    assert(starts == cell_starts(*buffer, marks, first as int, last as int));
                    assert(cells_stop(*buffer, marks, first as int, last as int) == row);
                    assert(snippets@ =~= cells_at(*buffer, range));
                }
                return (snippets, Some(Point::new(row, 0)));
            }
        }
        row += 1;
    }
    // There is no cell below: the last one goes to the end of the buffer.
    snippets.push(cell_range(buffer, start, max_row));
    proof {
        let stop = buffer.rows().len() as int;
        let below = max(first as int, last as int) + 1;
        if row > last {
            assert(next_start(*buffer, marks, row as int) == row);
        } else {
            assert(next_start(*buffer, marks, below) == below);
        }
        lemma_starts_beyond(*buffer, marks, first as int, min(row - 1, last as int), min(
            last as int,
            buffer.last_row(),
        ));
        assert(starts == cell_starts(*buffer, marks, first as int, last as int));
        assert(cells_stop(*buffer, marks, first as int, last as int) == stop);
        assert(snippets@ =~= cells_at(*buffer, range));
    }
    (snippets, None)
}

proof fn lemma_starts_beyond(
    buffer: BufferSnapshot,
    marks: Seq<Seq<char>>,
    above: int,
    a: int,
    b: int,
)
    requires
        a == b || (a <= above && b <= above),
    ensures
        starts_between(buffer, marks, above, a) == starts_between(buffer, marks, above, b),
{
}


pub proof fn lemma_trimmed_end(buffer: BufferSnapshot, start: int, end: int)
    requires
        start <= end,
    ensures
        start <= trimmed_end(buffer, start, end) <= end,
        trimmed_end(buffer, start, end) > start ==> !buffer.row_blank(
            trimmed_end(buffer, start, end),
        ),
        forall|row: int|
            trimmed_end(buffer, start, end) < row <= end ==> #[trigger] buffer.row_blank(row),
    decreases end - start,
{
    if end > start && buffer.row_blank(end) {
        lemma_trimmed_end(buffer, start, end - 1);
    }
}

pub proof fn lemma_cell_start(buffer: BufferSnapshot, marks: Seq<Seq<char>>, row: int)
    requires
        0 <= row,
    ensures
        0 <= cell_start(buffer, marks, row) <= row,
        cell_start(buffer, marks, row) > 0 ==> starts_cell(
            buffer,
            marks,
            cell_start(buffer, marks, row),
        ),
        forall|k: int|
            cell_start(buffer, marks, row) < k <= row ==> !#[trigger] starts_cell(buffer, marks, k),
    decreases row,
{
    if row > 0 && !starts_cell(buffer, marks, row) {
        lemma_cell_start(buffer, marks, row - 1);
    }
}

proof fn lemma_next_start(buffer: BufferSnapshot, marks: Seq<Seq<char>>, row: int)
    ensures
        row <= next_start(buffer, marks, row),
        row <= buffer.rows().len() ==> next_start(buffer, marks, row) <= buffer.rows().len(),
        next_start(buffer, marks, row) < buffer.rows().len() ==> starts_cell(
            buffer,
            marks,
            next_start(buffer, marks, row),
        ),
        forall|k: int|
            row <= k < next_start(buffer, marks, row) && k < buffer.rows().len()
                ==> !#[trigger] starts_cell(buffer, marks, k),
    decreases buffer.rows().len() - row,
{
    if row < buffer.rows().len() && !starts_cell(buffer, marks, row) {
        lemma_next_start(buffer, marks, row + 1);
    }
}

proof fn lemma_cell_rows(buffer: BufferSnapshot, marks: Seq<Seq<char>>, first: int, last: int)
    requires
        0 <= first <= buffer.last_row(),
    ensures
        ({
            let starts = cell_starts(buffer, marks, first, last);
            let stop = cells_stop(buffer, marks, first, last);
            &&& starts.len() > 0
            &&& 0 <= starts[0] <= first < stop <= buffer.rows().len()
            &&& last < stop || stop == buffer.rows().len()
            &&& forall|k: int|
                0 <= k < starts.len() ==> starts[0] <= #[trigger] starts[k] < boundary(
                    starts,
                    stop,
                    k,
                ) <= stop
            &&& forall|k: int, l: int|
                0 <= k < l < starts.len() ==> boundary(starts, stop, k) <= #[trigger] starts[l]
                    && (#[trigger] starts[k]) < starts[l]
            &&& forall|k: int|
                0 < k < starts.len() ==> starts_cell(buffer, marks, #[trigger] starts[k])
            &&& forall|k: int, row: int|
                0 <= k < starts.len() && #[trigger] starts[k] < row < boundary(starts, stop, k)
                    ==> !#[trigger] starts_cell(buffer, marks, row)
        }),
{
    let starts = cell_starts(buffer, marks, first, last);
    let stop = cells_stop(buffer, marks, first, last);
    let low = min(last, buffer.last_row());
    let inner = starts_between(buffer, marks, first, low);
    lemma_cell_start(buffer, marks, first);
    lemma_starts_between(buffer, marks, first, low);
    lemma_next_start(buffer, marks, max(first, last) + 1);
    assert(starts[0] == cell_start(buffer, marks, first));
    assert forall|k: int| 0 < k < starts.len() implies starts[k] == inner[k - 1] && first
        < #[trigger] starts[k] <= low && starts_cell(buffer, marks, starts[k]) by {}
    assert forall|k: int| 0 <= k < starts.len() implies starts[0] <= #[trigger] starts[k]
        < boundary(starts, stop, k) <= stop by {
        if k + 1 < starts.len() {
            assert(starts[k + 1] == inner[k]);
            if k > 0 {
                assert(starts[k] == inner[k - 1]);
            }
        }
    }
    assert forall|k: int, l: int| 0 <= k < l < starts.len() implies boundary(starts, stop, k)
        <= #[trigger] starts[l] && (#[trigger] starts[k]) < starts[l] by {
        assert(starts[k + 1] == inner[k]);
        assert(starts[l] == inner[l - 1]);
        if k > 0 {
            assert(starts[k] == inner[k - 1]);
        }
    }
    assert forall|k: int, row: int|
        0 <= k < starts.len() && #[trigger] starts[k] < row < boundary(starts, stop, k) implies
        !#[trigger] starts_cell(buffer, marks, row) by {
        if starts_cell(buffer, marks, row) {
            if first < row <= low {
                let j = choose|j: int| 0 <= j < inner.len() && inner[j] == row;
                assert(starts[j + 1] == row);
                if j + 1 <= k {
                    assert(starts[j + 1] <= starts[k]);
                } else {
                    assert(boundary(starts, stop, k) <= starts[j + 1]);
                }
            }
        }
    }
}

/// The cells that meet a range are the code between the lines that start cells:
/// - the first one starts at or above the range, with a row that starts a cell
///   or at the start of the buffer, and each one starts at the start of a row;
/// - they follow each other without overlapping;
/// - in each, no row but the first starts a cell, and every one but the first
///   begins with such a row;
/// - every row from the first cell to the next cell below that is not blank is
///   in one of them.
pub proof fn law_cells_divide_the_rows(buffer: BufferSnapshot, range: Range<Point>)
    requires
        buffer.wf(),
        has_cells(buffer),
        range.start.row < buffer.rows().len(),
    ensures
        cells_at(buffer, range).len() > 0,
        cells_at(buffer, range)[0].start.row <= range.start.row,
        cells_at(buffer, range)[0].start.row == 0 || starts_cell(
            buffer,
            marks_of(buffer),
            cells_at(buffer, range)[0].start.row as int,
        ),
        forall|k: int|
            0 <= k < cells_at(buffer, range).len() ==> (#[trigger] cells_at(
                buffer,
                range,
            )[k]).start.column == 0 && cells_at(buffer, range)[k].start.row <= cells_at(
                buffer,
                range,
            )[k].end.row,
        forall|k: int, l: int|
            0 <= k < l < cells_at(buffer, range).len() ==> (#[trigger] cells_at(
                buffer,
                range,
            )[k]).end.row < (#[trigger] cells_at(buffer, range)[l]).start.row,
        forall|k: int|
            0 < k < cells_at(buffer, range).len() ==> starts_cell(
                buffer,
                marks_of(buffer),
                (#[trigger] cells_at(buffer, range)[k]).start.row as int,
            ),
        forall|k: int, row: int|
            0 <= k < cells_at(buffer, range).len() && (#[trigger] cells_at(
                buffer,
                range,
            )[k]).start.row < row <= cells_at(buffer, range)[k].end.row ==> !#[trigger] starts_cell(
                buffer,
                marks_of(buffer),
                row,
            ),
        forall|row: int|
            cells_at(buffer, range)[0].start.row <= row && (cell_below(buffer, range) matches Some(p)
                ==> row < p.row) && !(#[trigger] buffer.row_blank(row)) ==> exists|k: int|
                0 <= k < cells_at(buffer, range).len() && (#[trigger] cells_at(
                    buffer,
                    range,
                )[k]).start.row <= row <= cells_at(buffer, range)[k].end.row,
{
    let marks = marks_of(buffer);
    let first = range.start.row as int;
    let last = range.end.row as int;
    let starts = cell_starts(buffer, marks, first, last);
    let stop = cells_stop(buffer, marks, first, last);
    let cells = cells_at(buffer, range);
    lemma_cell_rows(buffer, marks, first, last);
    lemma_next_start(buffer, marks, max(first, last) + 1);
    assert forall|k: int| 0 <= k < cells.len() implies (#[trigger] cells[k]).start.row == starts[k]
        && starts[k] <= cells[k].end.row < boundary(starts, stop, k) && cells[k].start.column == 0
        && (forall|row: int|
        cells[k].end.row < row < boundary(starts, stop, k) ==> #[trigger] buffer.row_blank(row)) by {
        lemma_trimmed_end(buffer, starts[k], boundary(starts, stop, k) - 1);
    }
    lemma_cell_start(buffer, marks, first);
    assert forall|row: int|
        cells[0].start.row <= row && (cell_below(buffer, range) matches Some(p) ==> row < p.row)
            && !(#[trigger] buffer.row_blank(row)) implies exists|k: int|
        0 <= k < cells.len() && (#[trigger] cells[k]).start.row <= row <= cells[k].end.row by {
        assert(row < stop) by {
            if row >= buffer.rows().len() {
                assert(buffer.row_blank(row));
            }
        }
        let k = lemma_find_cell(starts, stop, row);
        assert(cells[k].start.row == starts[k]);
    }
}

proof fn lemma_find_cell(starts: Seq<int>, stop: int, row: int) -> (k: int)
    requires
        starts.len() > 0,
        starts[0] <= row < stop,
    ensures
        0 <= k < starts.len(),
        starts[k] <= row < boundary(starts, stop, k),
    decreases starts.len(),
{
    if starts.last() <= row {
        starts.len() - 1
    } else {
        let head = starts.drop_last();
        let k = lemma_find_cell(head, starts.last(), row);
        assert(starts[k] == head[k]);
        k
    }
}

/// The point that comes with the cells is the start of the first cell below the
/// range, and there is none only if no cell starts below the range.
pub proof fn law_cell_below(buffer: BufferSnapshot, range: Range<Point>)
    requires
        buffer.wf(),
        has_cells(buffer),
    ensures
        cell_below(buffer, range) matches Some(p) ==> {
            &&& p.column == 0
            &&& range.start.row < p.row
            &&& range.end.row < p.row < buffer.rows().len()
            &&& starts_cell(buffer, marks_of(buffer), p.row as int)
        },
        forall|row: int|
            range.start.row < row && range.end.row < row < buffer.rows().len() && (cell_below(
                buffer,
                range,
            ) matches Some(p) ==> row < p.row) ==> !#[trigger] starts_cell(
                buffer,
                marks_of(buffer),
                row,
            ),
{
    lemma_next_start(
        buffer,
        marks_of(buffer),
        max(range.start.row as int, range.end.row as int) + 1,
    );
}


/// A row that starts a cell, or the first row of the buffer, is the first row of
/// the cell of `row` if no row between the two starts a cell.
pub proof fn lemma_cell_start_is(
    buffer: BufferSnapshot,
    marks: Seq<Seq<char>>,
    row: int,
    start: int,
)
    requires
        0 <= start <= row,
        start == 0 || starts_cell(buffer, marks, start),
        forall|k: int| start < k <= row ==> !#[trigger] starts_cell(buffer, marks, k),
    ensures
        cell_start(buffer, marks, row) == start,
    decreases row,
{
    if row > start {
        lemma_cell_start_is(buffer, marks, row - 1, start);
    }
}

/// No row below the start of the last cell and down to the end of the range
/// starts a cell.
pub proof fn lemma_last_cell(buffer: BufferSnapshot, range: Range<Point>)
    requires
        buffer.wf(),
        has_cells(buffer),
        range.start.row <= range.end.row < buffer.rows().len(),
    ensures
        cells_at(buffer, range).len() > 0,
        cells_at(buffer, range).last().start.row <= range.end.row,
        forall|row: int|
            cells_at(buffer, range).last().start.row < row <= range.end.row
                ==> !#[trigger] starts_cell(buffer, marks_of(buffer), row),
{
    let marks = marks_of(buffer);
    let first = range.start.row as int;
    let last = range.end.row as int;
    let starts = cell_starts(buffer, marks, first, last);
    let stop = cells_stop(buffer, marks, first, last);
    lemma_cell_rows(buffer, marks, first, last);
    lemma_starts_between(buffer, marks, first, min(last, buffer.last_row()));
    let k = starts.len() - 1;
    assert(starts[k] <= last) by {
        if k > 0 {
            assert(starts[k] == starts_between(
                buffer,
                marks,
                first,
                min(last, buffer.last_row()),
            )[k - 1]);
        }
    }
    assert(cells_at(buffer, range)[k].start.row == starts[k]);
    assert(boundary(starts, stop, k) == stop);
}

/// Whether a row begins with one of the language's ways to begin a line comment,
/// followed by two percent signs.
pub open spec fn has_cell_mark(buffer: BufferSnapshot, language: Language, row: int) -> bool {
    exists|i: int|
        0 <= i < language.line_comment_prefixes@.len() && buffer.row_starts_with(
            row,
            #[trigger] language.line_comment_prefixes@[i]@ + seq!['%', '%'],
        )
}

/// A row starts a cell if it begins with a line comment and two percent signs.
pub proof fn law_cell_mark(buffer: BufferSnapshot, language: Language, row: int)
    ensures
        starts_cell(buffer, cell_marks(language), row) <==> has_cell_mark(buffer, language, row),
{
    let marks = cell_marks(language);
    reveal_strlit("%%");
    assert("%%"@ =~= seq!['%', '%']);
    if starts_cell(buffer, marks, row) {
        let i = choose|i: int|
            0 <= i < marks.len() && #[trigger] buffer.row_starts_with(row, marks[i]);
        assert(marks[i] == language.line_comment_prefixes@[i]@ + seq!['%', '%']);
    }
    if has_cell_mark(buffer, language, row) {
        let i = choose|i: int|
            0 <= i < language.line_comment_prefixes@.len() && buffer.row_starts_with(
                row,
                #[trigger] language.line_comment_prefixes@[i]@ + seq!['%', '%'],
            );
        assert(buffer.row_starts_with(row, marks[i]));
    }
}

/// Without a language, or with one that has no line comments, there are no cells
/// and none is below.
pub proof fn law_no_comments_no_cells(buffer: BufferSnapshot, range: Range<Point>)
    requires
        buffer.main_language() matches Some(language)
            ==> language.line_comment_prefixes@.len() == 0,
    ensures
        cells_at(buffer, range).len() == 0,
        cell_below(buffer, range) is None,
{
}

/// The cells that run for a range, bare cursor or selection, are those that its
/// rows lie in, each one whole and no other:
/// - the first starts on the last row with a cell mark at or above the first row
///   of the range, or on the first row of the buffer;
/// - each other one starts on a row with a cell mark below the first row of the
///   range and not below its last one, and each such row starts one;
/// - each ends with the last row that is not blank in front of the next mark, at
///   the end of that row, and has at least its first row.
pub proof fn law_cells_meet_the_range(buffer: BufferSnapshot, language: Language, range: Range<Point>)
    requires
        buffer.wf(),
        buffer.main_language() == Some(language),
        language.line_comment_prefixes@.len() > 0,
        range.start.row < buffer.rows().len(),
    ensures
        ({
            let cells = cells_at(buffer, range);
            &&& cells.len() > 0
            &&& cells[0].start.row <= range.start.row
            &&& cells[0].start.row == 0 || has_cell_mark(
                buffer,
                language,
                cells[0].start.row as int,
            )
            &&& forall|row: int|
                cells[0].start.row < row <= range.start.row ==> !#[trigger] has_cell_mark(
                    buffer,
                    language,
                    row,
                )
            &&& forall|k: int|
                0 < k < cells.len() ==> range.start.row < (#[trigger] cells[k]).start.row
                    <= range.end.row && has_cell_mark(buffer, language, cells[k].start.row as int)
            &&& forall|row: int|
                range.start.row < row <= range.end.row && row < buffer.rows().len()
                    && #[trigger] has_cell_mark(buffer, language, row) ==> exists|k: int|
                    0 < k < cells.len() && (#[trigger] cells[k]).start.row == row
            &&& forall|k: int, l: int|
                0 <= k < l < cells.len() ==> (#[trigger] cells[k]).end.row < (
                #[trigger] cells[l]).start.row
            &&& forall|k: int|
                0 <= k < cells.len() ==> {
                    let cell = #[trigger] cells[k];
                    &&& cell.start.column == 0
                    &&& cell.start.row <= cell.end.row < buffer.rows().len()
                    &&& cell.end.column == buffer.row_len(cell.end.row as int)
                    &&& cell.start.row < cell.end.row ==> !buffer.row_blank(cell.end.row as int)
                }
            &&& forall|k: int, row: int|
                0 <= k < cells.len() && (#[trigger] cells[k]).start.row < row <= cells[k].end.row
                    ==> !#[trigger] has_cell_mark(buffer, language, row)
            &&& forall|k: int, row: int|
                0 <= k < cells.len() && (#[trigger] cells[k]).end.row < row < buffer.rows().len()
                    && !(#[trigger] buffer.row_blank(row)) ==> exists|mark: int|
                    cells[k].end.row < mark <= row && #[trigger] has_cell_mark(
                        buffer,
                        language,
                        mark,
                    )
        }),
{
    let marks = marks_of(buffer);
    let first = range.start.row as int;
    let last = range.end.row as int;
    let starts = cell_starts(buffer, marks, first, last);
    let stop = cells_stop(buffer, marks, first, last);
    let cells = cells_at(buffer, range);
    let inner = starts_between(buffer, marks, first, min(last, buffer.last_row()));
    assert forall|row: int| #[trigger] has_cell_mark(buffer, language, row) == starts_cell(
        buffer,
        marks,
        row,
    ) by {
        law_cell_mark(buffer, language, row);
    }
    assert forall|row: int| #[trigger] starts_cell(buffer, marks, row) == has_cell_mark(
        buffer,
        language,
        row,
    ) by {}
    lemma_cell_rows(buffer, marks, first, last);
    lemma_next_start(buffer, marks, max(first, last) + 1);
    lemma_cell_start(buffer, marks, first);
    lemma_starts_between(buffer, marks, first, min(last, buffer.last_row()));
    assert forall|k: int| 0 <= k < cells.len() implies (#[trigger] cells[k]).start.row == starts[k]
        && starts[k] <= cells[k].end.row < boundary(starts, stop, k) && cells[k].start.column == 0
        && cells[k].end.column == buffer.row_len(cells[k].end.row as int) && (cells[k].start.row
        < cells[k].end.row ==> !buffer.row_blank(cells[k].end.row as int)) && (forall|row: int|
        cells[k].end.row < row < boundary(starts, stop, k) ==> #[trigger] buffer.row_blank(row)) by {
        lemma_trimmed_end(buffer, starts[k], boundary(starts, stop, k) - 1);
        assert(text_len(buffer.rows()[trimmed_end(
            buffer,
            starts[k],
            boundary(starts, stop, k) - 1,
        )]) <= u32::MAX);
    }
    assert forall|k: int| 0 < k < cells.len() implies range.start.row < (
    #[trigger] cells[k]).start.row <= range.end.row && has_cell_mark(
        buffer,
        language,
        cells[k].start.row as int,
    ) by {
        assert(starts[k] == inner[k - 1]);
    }
    assert forall|row: int|
        range.start.row < row <= range.end.row && row < buffer.rows().len()
            && #[trigger] has_cell_mark(buffer, language, row) implies exists|k: int|
        0 < k < cells.len() && (#[trigger] cells[k]).start.row == row by {
        assert(inner.contains(row));
        let j = choose|j: int| 0 <= j < inner.len() && inner[j] == row;
        assert(starts[j + 1] == row);
        assert(cells[j + 1].start.row == row);
    }
    assert forall|k: int, row: int|
        0 <= k < cells.len() && (#[trigger] cells[k]).end.row < row < buffer.rows().len() && !(
        #[trigger] buffer.row_blank(row)) implies exists|mark: int|
        cells[k].end.row < mark <= row && #[trigger] has_cell_mark(buffer, language, mark) by {
        let mark = boundary(starts, stop, k);
        assert(mark <= row);
        if k + 1 < cells.len() {
            assert(starts[k + 1] == inner[k]);
        }
        assert(starts_cell(buffer, marks, mark));
        assert(has_cell_mark(buffer, language, mark));
    }
}

/// The point that comes with the cells is the first row with a cell mark below
/// the range, and there is none only if no such row is there.
pub proof fn law_next_cell_is_first_mark_below(
    buffer: BufferSnapshot,
    language: Language,
    range: Range<Point>,
)
    requires
        buffer.wf(),
        buffer.main_language() == Some(language),
        language.line_comment_prefixes@.len() > 0,
    ensures
        cell_below(buffer, range) matches Some(p) ==> p.column == 0 && range.start.row < p.row
            && range.end.row < p.row < buffer.rows().len() && has_cell_mark(
            buffer,
            language,
            p.row as int,
        ),
        forall|row: int|
            range.start.row < row && range.end.row < row < buffer.rows().len()
                && #[trigger] has_cell_mark(buffer, language, row) ==> (cell_below(
                buffer,
                range,
            ) matches Some(p) && p.row <= row),
{
    law_cell_below(buffer, range);
    assert forall|row: int| #[trigger] has_cell_mark(buffer, language, row) == starts_cell(
        buffer,
        marks_of(buffer),
        row,
    ) by {
        law_cell_mark(buffer, language, row);
    }
}

} // verus!
