//! Buffer snapshots: the text of a buffer by rows, the languages in it, and its
//! syntax trees.
use std::ops::Range;

use vstd::prelude::*;

use crate::language::Language;
use crate::point::Point;
use crate::syntax::{Node, SyntaxTree};
use crate::text::{
    blank, byte_slice, char_len, first_visible_is, is_whitespace, lemma_byte_slice_middle,
    lemma_text_len_concat, text_len, utf8_len, white_space,
};

verus! {

/// One parse of a buffer or of parts of it.
pub struct SyntaxLayer {
    /// The language that the layer is parsed in.
    pub language: Language,
    /// The byte ranges of the buffer that the layer speaks for.
    pub ranges: Vec<Range<usize>>,
    pub tree: SyntaxTree,
}

impl SyntaxLayer {
    /// Whether the layer speaks for the byte at `offset`.
    pub open spec fn covers(self, offset: int) -> bool {
        exists|i: int|
            0 <= i < self.ranges@.len() && (#[trigger] self.ranges@[i]).start <= offset
                < self.ranges@[i].end
    }

    /// Whether the layer is a parse of a text with the given lines: the bytes
    /// and the positions of each node agree and lie in the text, no node ends
    /// before it starts, and each node lies inside its parent.
    pub open spec fn fits(self, lines: Seq<Seq<char>>) -> bool {
        forall|i: int|
            0 <= i < self.tree@.len() ==> node_fits(lines, self.tree@, #[trigger] self.tree@[i])
    }

    /// Whether the layer speaks for the byte at `offset`.
    pub fn is_at(&self, offset: usize) -> (r: bool)
        ensures
            r == self.covers(offset as int),
    {
        let mut i: usize = 0;
        while i < self.ranges.len()
            invariant
                i <= self.ranges@.len(),
                forall|k: int|
                    0 <= k < i ==> !((#[trigger] self.ranges@[k]).start <= offset
                        < self.ranges@[k].end),
            decreases self.ranges@.len() - i,
        {
            if self.ranges[i].start <= offset && offset < self.ranges[i].end {
                return true;
            }
            i += 1;
        }
        false
    }
}

/// The state of a buffer at one moment.
pub struct BufferSnapshot {
    lines: Vec<Vec<char>>,
    language: Option<Language>,
    layers: Vec<SyntaxLayer>,
}

/// The lines of a text: what lies between its line feeds.
pub open spec fn split_lines(s: Seq<char>) -> Seq<Seq<char>>
    decreases s.len(),
{
    if s.len() == 0 {
        seq![Seq::empty()]
    } else {
        let head = split_lines(s.drop_last());
        if s.last() == '\n' {
            head.push(Seq::empty())
        } else {
            head.update(head.len() - 1, head.last().push(s.last()))
        }
    }
}

/// The text of the first `n` of the given lines, with a line feed between each
/// two of them.
pub open spec fn join_lines(lines: Seq<Seq<char>>, n: int) -> Seq<char>
    decreases n,
{
    if n <= 0 {
        Seq::empty()
    } else if n == 1 {
        lines[0]
    } else {
        join_lines(lines, n - 1).push('\n') + lines[n - 1]
    }
}

/// The bytes in front of line `row`: those of the lines above it, and a line
/// feed for each.
pub open spec fn bytes_before(lines: Seq<Seq<char>>, row: int) -> nat
    decreases row,
{
    if row <= 0 {
        0
    } else {
        bytes_before(lines, row - 1) + text_len(lines[row - 1]) + 1
    }
}

/// Whether rows, columns and offsets of a text with these lines fit in the
/// integers that stand for them.
pub open spec fn lines_fit(lines: Seq<Seq<char>>) -> bool {
    &&& 0 < lines.len() <= u32::MAX
    &&& forall|r: int| 0 <= r < lines.len() ==> text_len(#[trigger] lines[r]) <= u32::MAX
    &&& bytes_before(lines, lines.len() as int) <= usize::MAX
}

/// Whether `p` is a position of a text with these lines, and `byte` its offset.
pub open spec fn is_position(lines: Seq<Seq<char>>, p: Point, byte: int) -> bool {
    &&& p.row < lines.len()
    &&& p.column <= text_len(lines[p.row as int])
    &&& byte == bytes_before(lines, p.row as int) + p.column
}

/// Whether a node of a tree lies in a text with these lines and inside its
/// parent.
pub open spec fn node_fits(lines: Seq<Seq<char>>, nodes: Seq<Node>, node: Node) -> bool {
    &&& node.start_byte <= node.end_byte
    &&& is_position(lines, node.start_position, node.start_byte as int)
    &&& is_position(lines, node.end_position, node.end_byte as int)
    &&& node.parent matches Some(p) ==> nodes[p as int].start_byte <= node.start_byte
        && node.end_byte <= nodes[p as int].end_byte
}

/// Whether each layer holds a tree and is a parse of a text with these lines.
pub open spec fn layers_fit(lines: Seq<Seq<char>>, layers: Seq<SyntaxLayer>) -> bool {
    forall|i: int|
        0 <= i < layers.len() ==> (#[trigger] layers[i]).tree.wf() && layers[i].fits(lines)
}

impl BufferSnapshot {
    /// The lines of the text.
    pub closed spec fn rows(self) -> Seq<Seq<char>> {
        Seq::new(self.lines@.len(), |r: int| self.lines@[r]@)
    }

    /// The language of the buffer as a whole.
    pub closed spec fn main_language(self) -> Option<Language> {
        self.language
    }

    /// The syntax layers, the outermost first.
    pub closed spec fn syntax_layers(self) -> Seq<SyntaxLayer> {
        self.layers@
    }

    pub open spec fn wf(self) -> bool {
        &&& lines_fit(self.rows())
        &&& forall|r: int, i: int|
            0 <= r < self.rows().len() && 0 <= i < self.rows()[r].len()
                ==> #[trigger] self.rows()[r][i] != '\n'
        &&& layers_fit(self.rows(), self.syntax_layers())
    }

    /// The text of the buffer.
    pub open spec fn text(self) -> Seq<char> {
        join_lines(self.rows(), self.rows().len() as int)
    }

    /// The last row of the buffer.
    pub open spec fn last_row(self) -> int {
        self.rows().len() - 1
    }

    /// The text of a row; there is none below the last row.
    pub open spec fn row_text(self, row: int) -> Seq<char> {
        if 0 <= row < self.rows().len() {
            self.rows()[row]
        } else {
            Seq::empty()
        }
    }

    /// The number of bytes in a row.
    pub open spec fn row_len(self, row: int) -> nat {
        text_len(self.row_text(row))
    }

    /// The number of bytes in the buffer.
    pub open spec fn byte_len(self) -> int {
        bytes_before(self.rows(), self.rows().len() as int) - 1
    }

    /// The offset of a position. A column behind the end of its row counts as
    /// the end of the row, a row below the last one as the end of the buffer.
    pub open spec fn offset_of(self, p: Point) -> int {
        if p.row < self.rows().len() {
            bytes_before(self.rows(), p.row as int) + (if p.column <= self.row_len(p.row as int) {
                p.column as int
            } else {
                self.row_len(p.row as int) as int
            })
        } else {
            self.byte_len()
        }
    }

    /// The position behind the last character of the buffer.
    pub open spec fn end_point(self) -> Point {
        Point { row: self.last_row() as u32, column: self.row_len(self.last_row()) as u32 }
    }

    /// Whether `p` is a position of the buffer.
    pub open spec fn holds_point(self, p: Point) -> bool {
        p.row < self.rows().len() && p.column <= self.row_len(p.row as int)
    }

    /// The row of an offset, looked for from `row` upwards.
    pub open spec fn row_at_from(self, offset: int, row: int) -> int
        decreases row,
    {
        if row <= 0 || bytes_before(self.rows(), row) <= offset {
            row
        } else {
            self.row_at_from(offset, row - 1)
        }
    }

    /// The row of an offset: the last row that starts at or before it.
    pub open spec fn row_at(self, offset: int) -> int {
        self.row_at_from(offset, self.last_row())
    }

    /// The position of an offset. An offset behind the end of the buffer counts
    /// as the end.
    pub open spec fn point_at(self, offset: int) -> Point {
        let at = if offset <= self.byte_len() {
            offset
        } else {
            self.byte_len()
        };
        let row = self.row_at(at);
        Point { row: row as u32, column: (at - bytes_before(self.rows(), row)) as u32 }
    }

    /// Whether a row has no character but white space.
    pub open spec fn row_blank(self, row: int) -> bool {
        blank(self.row_text(row))
    }

    /// Whether a row is blank or holds nothing but a comment that starts with a
    /// number sign.
    pub open spec fn row_blank_or_comment(self, row: int) -> bool {
        self.row_blank(row) || first_visible_is(self.row_text(row), '#')
    }

    /// The text from the start of a row to the end of the buffer.
    pub open spec fn text_from_row(self, row: int) -> Seq<char>
        decreases self.rows().len() - row,
    {
        if row < 0 || row >= self.rows().len() {
            Seq::empty()
        } else if row == self.rows().len() - 1 {
            self.rows()[row]
        } else {
            self.rows()[row].push('\n') + self.text_from_row(row + 1)
        }
    }

    /// Whether the text of the buffer goes on with `needle` at the start of a
    /// row.
    pub open spec fn row_starts_with(self, row: int, needle: Seq<char>) -> bool {
        needle.is_prefix_of(self.text_from_row(row))
    }

    /// The last of the first `n` layers that speaks for the byte at `offset`.
    pub open spec fn layer_below(self, offset: int, n: int) -> Option<SyntaxLayer>
        decreases n,
    {
        if n <= 0 {
            None
        } else if self.syntax_layers()[n - 1].covers(offset) {
            Some(self.syntax_layers()[n - 1])
        } else {
            self.layer_below(offset, n - 1)
        }
    }

    /// The innermost layer that speaks for the byte at `offset`.
    pub open spec fn layer_at(self, offset: int) -> Option<SyntaxLayer> {
        self.layer_below(offset, self.syntax_layers().len() as int)
    }

    /// The language at a position: that of the innermost layer there, or that
    /// of the buffer where no layer is.
    pub open spec fn language_of(self, p: Point) -> Option<Language> {
        match self.layer_at(self.offset_of(p)) {
            Some(layer) => Some(layer.language),
            None => self.main_language(),
        }
    }

    /// Whether both ends of a range lie in one language.
    pub open spec fn one_language(self, range: Range<Point>) -> bool {
        match (self.language_of(range.start), self.language_of(range.end)) {
            (Some(a), Some(b)) => a.id == b.id,
            _ => false,
        }
    }

    /// The text of a range.
    pub open spec fn range_text(self, range: Range<Point>) -> Seq<char> {
        byte_slice(self.text(), self.offset_of(range.start), self.offset_of(range.end))
    }
}

proof fn lemma_text_len_take(s: Seq<char>, i: int)
    requires
        0 <= i <= s.len(),
    ensures
        text_len(s.take(i)) <= text_len(s),
        i < s.len() ==> text_len(s.take(i + 1)) == text_len(s.take(i)) + char_len(s[i]),
    decreases s.len() - i,
{
    if i < s.len() {
        assert(s.take(i + 1).drop_last() =~= s.take(i));
        lemma_text_len_take(s, i + 1);
    } else {
        assert(s.take(i) =~= s);
    }
}

proof fn lemma_bytes_before_mono(lines: Seq<Seq<char>>, a: int, b: int)
    requires
        0 <= a <= b,
    ensures
        bytes_before(lines, a) + (b - a) <= bytes_before(lines, b),
    decreases b - a,
{
    if a < b {
        lemma_bytes_before_mono(lines, a, b - 1);
    }
}

/// The number of bytes in a line, if it fits.
fn measure(line: &Vec<char>) -> (r: Option<u32>)
    ensures
        match r {
            Some(n) => n == text_len(line@),
            None => text_len(line@) > u32::MAX,
        },
{
    let mut n: u32 = 0;
    let mut i: usize = 0;
    assert(line@.take(0).len() == 0);
    while i < line.len()
        invariant
            i <= line@.len(),
            n == text_len(line@.take(i as int)),
        decreases line@.len() - i,
    {
        let width: usize = utf8_len(line[i]);
        proof {
            lemma_text_len_take(line@, i as int);
            lemma_text_len_take(line@, i as int + 1);
        }
        match n.checked_add(width as u32) {
            Some(sum) => {
                n = sum;
            },
            None => {
                return None;
            },
        }
        i += 1;
    }
    assert(line@.take(i as int) =~= line@);
    Some(n)
}

/// The place of the first character of a line that is not white space.
fn indent_of(line: &Vec<char>) -> (r: Option<usize>)
    ensures
        match r {
            Some(i) => i < line@.len() && !white_space(line@[i as int]) && blank(
                line@.take(i as int),
            ) && !blank(line@),
            None => blank(line@),
        },
{
    let mut i: usize = 0;
    while i < line.len()
        invariant
            i <= line@.len(),
            forall|k: int| 0 <= k < i ==> white_space(#[trigger] line@[k]),
        decreases line@.len() - i,
    {
        if !is_whitespace(line[i]) {
            return Some(i);
        }
        i += 1;
    }
    None
}

/// Whether rows, columns and offsets of a text with these lines fit in the
/// integers that stand for them.
fn measure_all(lines: &Vec<Vec<char>>) -> (r: bool)
    ensures
        r == lines_fit(Seq::new(lines@.len(), |k: int| lines@[k]@)),
{
    let ghost rows = Seq::new(lines@.len(), |k: int| lines@[k]@);
    if lines.len() == 0 || lines.len() > u32::MAX as usize {
        return false;
    }
    let mut total: usize = 0;
    let mut row: usize = 0;
    while row < lines.len()
        invariant
            row <= lines@.len(),
            rows == Seq::new(lines@.len(), |k: int| lines@[k]@),
            total == bytes_before(rows, row as int),
            forall|k: int| 0 <= k < row ==> text_len(#[trigger] rows[k]) <= u32::MAX,
        decreases lines@.len() - row,
    {
        assert(rows[row as int] == lines@[row as int]@);
        match measure(&lines[row]) {
            Some(n) => {
                proof {
                    lemma_bytes_before_mono(rows, row as int + 1, rows.len() as int);
                }
                match total.checked_add(n as usize) {
                    Some(sum) => {
                        match sum.checked_add(1) {
                            Some(next) => {
                                total = next;
                            },
                            None => {
                                return false;
                            },
                        }
                    },
                    None => {
                        return false;
                    },
                }
            },
            None => {
                return false;
            },
        }
        row += 1;
    }
    true
}

proof fn lemma_split_no_feed(s: Seq<char>)
    ensures
        split_lines(s).len() > 0,
        forall|r: int, i: int|
            0 <= r < split_lines(s).len() && 0 <= i < split_lines(s)[r].len()
                ==> #[trigger] split_lines(s)[r][i] != '\n',
    decreases s.len(),
{
    if s.len() > 0 {
        lemma_split_no_feed(s.drop_last());
    }
}

proof fn lemma_join_same(a: Seq<Seq<char>>, b: Seq<Seq<char>>, n: int)
    requires
        forall|r: int| 0 <= r < n ==> a[r] == b[r],
    ensures
        join_lines(a, n) == join_lines(b, n),
    decreases n,
{
    if n > 1 {
        lemma_join_same(a, b, n - 1);
    }
}

/// Splitting a text into lines and joining them again gives the text.
proof fn lemma_join_split(s: Seq<char>)
    ensures
        join_lines(split_lines(s), split_lines(s).len() as int) == s,
    decreases s.len(),
{
    let lines = split_lines(s);
    let n = lines.len() as int;
    if s.len() == 0 {
        assert(lines[0] =~= s);
    } else {
        let head = split_lines(s.drop_last());
        let m = head.len() as int;
        lemma_split_no_feed(s.drop_last());
        lemma_join_split(s.drop_last());
        if s.last() == '\n' {
            lemma_join_same(head, lines, m);
            assert(lines[n - 1] == Seq::<char>::empty());
            assert(join_lines(lines, n) =~= s);
        } else {
            lemma_join_same(head, lines, m - 1);
            assert(lines[m - 1] == head[m - 1].push(s.last()));
            if m == 1 {
                assert(join_lines(lines, n) =~= s);
            } else {
                assert(join_lines(lines, n) =~= join_lines(head, m).push(s.last()));
                assert(join_lines(lines, n) =~= s);
            }
        }
    }
}

proof fn lemma_joined_len(lines: Seq<Seq<char>>, n: int)
    requires
        n >= 1,
    ensures
        text_len(join_lines(lines, n)) + 1 == bytes_before(lines, n),
    decreases n,
{
    reveal_with_fuel(bytes_before, 2);
    if n > 1 {
        lemma_joined_len(lines, n - 1);
        let head = join_lines(lines, n - 1);
        lemma_text_len_concat(head.push('\n'), lines[n - 1]);
        assert(head.push('\n').drop_last() =~= head);
    }
}

/// The text of the buffer has as many bytes as the buffer.
pub proof fn law_byte_len(b: BufferSnapshot)
    requires
        b.wf(),
    ensures
        text_len(b.text()) == b.byte_len(),
{
    lemma_joined_len(b.rows(), b.rows().len() as int);
}

/// Every position of the buffer has an offset of its own, and the offset leads
/// back to the position.
pub proof fn law_point_offset_point(b: BufferSnapshot, p: Point)
    requires
        lines_fit(b.rows()),
        b.holds_point(p),
    ensures
        0 <= b.offset_of(p) <= b.byte_len(),
        b.point_at(b.offset_of(p)) == p,
{
    let lines = b.rows();
    let row = p.row as int;
    lemma_bytes_before_mono(lines, row + 1, lines.len() as int);
    lemma_row_at_from(b, b.offset_of(p), row, b.last_row());
}

proof fn lemma_join_at(lines: Seq<Seq<char>>, a: int, n: int)
    requires
        0 < a < n <= lines.len(),
    ensures
        join_lines(lines, n) == join_lines(lines, a).push('\n') + join_lines(lines.skip(a), n - a),
    decreases n,
{
    let head = join_lines(lines, a).push('\n');
    if n == a + 1 {
        assert(lines.skip(a)[0] == lines[a]);
    } else {
        lemma_join_at(lines, a, n - 1);
        assert(lines.skip(a)[n - a - 1] == lines[n - 1]);
        assert(join_lines(lines, n) =~= head + join_lines(lines.skip(a), n - a));
    }
}

/// The text from the start of one row to the end of another is the text of the
/// rows between them, with a line feed between each two.
pub proof fn law_text_of_rows(b: BufferSnapshot, first: u32, last: u32)
    requires
        b.wf(),
        first <= last < b.rows().len(),
    ensures
        b.range_text(
            Range {
                start: Point { row: first, column: 0 },
                end: Point { row: last, column: b.row_len(last as int) as u32 },
            },
        ) == join_lines(b.rows().subrange(first as int, last + 1), last + 1 - first),
{
    let lines = b.rows();
    let n = lines.len() as int;
    let lo = first as int;
    let hi = last + 1;
    let above = if lo == 0 {
        Seq::empty()
    } else {
        join_lines(lines, lo).push('\n')
    };
    let middle = join_lines(lines.skip(lo), hi - lo);
    let below = if hi == n {
        Seq::empty()
    } else {
        seq!['\n'] + join_lines(lines.skip(hi), n - hi)
    };
    assert(text_len(above) == bytes_before(lines, lo)) by {
        if lo > 0 {
            lemma_joined_len(lines, lo);
            assert(above.drop_last() =~= join_lines(lines, lo));
        }
    }
    assert(join_lines(lines, hi) == above + middle) by {
        if lo > 0 {
            lemma_join_at(lines, lo, hi);
        } else {
            assert(lines.skip(0) =~= lines);
            assert(above + middle =~= middle);
        }
    }
    assert(b.text() == above + middle + below) by {
        if hi < n {
            lemma_join_at(lines, hi, n);
            assert(join_lines(lines, hi).push('\n') + join_lines(lines.skip(hi), n - hi)
                =~= join_lines(lines, hi) + below);
        } else {
            assert(above + middle + below =~= above + middle);
        }
    }
    lemma_joined_len(lines, hi);
    lemma_text_len_concat(above, middle);
    lemma_byte_slice_middle(above, middle, below);
    lemma_join_same(lines.skip(lo), lines.subrange(lo, hi), hi - lo);
}

proof fn lemma_row_at_from(b: BufferSnapshot, offset: int, row: int, from: int)
    requires
        0 <= row <= from,
        bytes_before(b.rows(), row) <= offset < bytes_before(b.rows(), row + 1),
    ensures
        b.row_at_from(offset, from) == row,
    decreases from,
{
    if from > row {
        lemma_bytes_before_mono(b.rows(), row + 1, from);
        lemma_row_at_from(b, offset, row, from - 1);
    }
}

proof fn lemma_row_at_bounds(b: BufferSnapshot, offset: int, from: int)
    requires
        0 <= offset,
        0 <= from,
    ensures
        ({
            let row = b.row_at_from(offset, from);
            &&& 0 <= row <= from
            &&& bytes_before(b.rows(), row) <= offset
            &&& row < from ==> offset < bytes_before(b.rows(), row + 1)
        }),
    decreases from,
{
    if from > 0 && bytes_before(b.rows(), from) > offset {
        lemma_row_at_bounds(b, offset, from - 1);
    }
}

/// Every offset of the buffer has a position of its own, and the position leads
/// back to the offset. An offset behind the end has the position of the end.
pub proof fn law_offset_point_offset(b: BufferSnapshot, offset: int)
    requires
        lines_fit(b.rows()),
        0 <= offset,
    ensures
        b.holds_point(b.point_at(offset)),
        offset <= b.byte_len() ==> b.offset_of(b.point_at(offset)) == offset,
        offset >= b.byte_len() ==> b.point_at(offset) == b.end_point(),
{
    let at = if offset <= b.byte_len() {
        offset
    } else {
        b.byte_len()
    };
    lemma_row_at_bounds(b, at, b.last_row());
    if offset >= b.byte_len() {
        lemma_row_at_from(b, at, b.last_row(), b.last_row());
    }
}

/// Positions are in the order of their offsets.
pub proof fn law_points_in_order(b: BufferSnapshot, first: int, second: int)
    requires
        lines_fit(b.rows()),
        0 <= first <= second,
    ensures
        b.point_at(first).up_to(b.point_at(second)),
        b.point_at(second).up_to(b.end_point()),
{
    let end = b.byte_len();
    let a = if first <= end {
        first
    } else {
        end
    };
    let c = if second <= end {
        second
    } else {
        end
    };
    lemma_row_at_bounds(b, a, b.last_row());
    lemma_row_at_bounds(b, c, b.last_row());
    if b.row_at(a) > b.row_at(c) {
        lemma_bytes_before_mono(b.rows(), b.row_at(c) + 1, b.row_at(a));
    }
    law_offset_point_offset(b, first);
    law_offset_point_offset(b, second);
}

/// The text of a range is what stands between its two ends: what is left of the
/// buffer's text once the text in front of the range and the text behind it are
/// taken off.
pub proof fn law_range_text_stands_between(
    b: BufferSnapshot,
    range: Range<Point>,
    before: Seq<char>,
    middle: Seq<char>,
    behind: Seq<char>,
)
    requires
        b.text() == before + middle + behind,
        b.offset_of(range.start) == text_len(before),
        b.offset_of(range.end) == text_len(before) + text_len(middle),
    ensures
        b.range_text(range) == middle,
{
    lemma_byte_slice_middle(before, middle, behind);
}

/// Offsets count the bytes from the start of the buffer: a row starts one byte
/// behind the end of the row above it, a column counts the bytes from the start
/// of its row, and what lies outside a row or the buffer counts as its end.
pub proof fn law_offsets_count_bytes(b: BufferSnapshot, p: Point)
    requires
        b.wf(),
    ensures
        b.offset_of(Point { row: 0, column: 0 }) == 0,
        0 < p.row < b.rows().len() ==> b.offset_of(Point { row: p.row, column: 0 }) == b.offset_of(
            Point { row: (p.row - 1) as u32, column: 0 },
        ) + text_len(b.rows()[p.row - 1]) + 1,
        p.row < b.rows().len() && p.column <= text_len(b.rows()[p.row as int]) ==> b.offset_of(p)
            == b.offset_of(Point { row: p.row, column: 0 }) + p.column,
        p.row < b.rows().len() && p.column > text_len(b.rows()[p.row as int]) ==> b.offset_of(p)
            == b.offset_of(Point { row: p.row, column: 0 }) + text_len(b.rows()[p.row as int]),
        p.row >= b.rows().len() ==> b.offset_of(p) == text_len(b.text()),
{
    law_byte_len(b);
}

/// The nodes of every layer lie in the buffer: the ends of a node are positions of
/// the buffer with the offsets that the node says, the end not before the start,
/// and both inside the parent. A layer with such nodes is accepted.
pub proof fn law_nodes_lie_in_the_buffer(b: BufferSnapshot, layer: SyntaxLayer, k: int, i: int)
    requires
        b.wf(),
    ensures
        0 <= k < b.syntax_layers().len() && 0 <= i < b.syntax_layers()[k].tree@.len() ==> {
            let nodes = b.syntax_layers()[k].tree@;
            &&& b.holds_point(nodes[i].start_position)
            &&& b.offset_of(nodes[i].start_position) == nodes[i].start_byte
            &&& b.holds_point(nodes[i].end_position)
            &&& b.offset_of(nodes[i].end_position) == nodes[i].end_byte
            &&& nodes[i].start_byte <= nodes[i].end_byte
            &&& nodes[i].parent matches Some(p) ==> nodes[p as int].start_byte
                <= nodes[i].start_byte && nodes[i].end_byte <= nodes[p as int].end_byte
        },
        (forall|j: int|
            0 <= j < layer.tree@.len() ==> {
                let node = #[trigger] layer.tree@[j];
                &&& b.holds_point(node.start_position)
                &&& b.offset_of(node.start_position) == node.start_byte
                &&& b.holds_point(node.end_position)
                &&& b.offset_of(node.end_position) == node.end_byte
                &&& node.start_byte <= node.end_byte
                &&& node.parent matches Some(p) ==> layer.tree@[p as int].start_byte
                    <= node.start_byte && node.end_byte <= layer.tree@[p as int].end_byte
            }) ==> layer.fits(b.rows()),
{
    if 0 <= k < b.syntax_layers().len() && 0 <= i < b.syntax_layers()[k].tree@.len() {
        assert(b.syntax_layers()[k].fits(b.rows()));
        let nodes = b.syntax_layers()[k].tree@;
        assert(node_fits(b.rows(), nodes, nodes[i]));
    }
}

/// A layer speaks for the bytes of its ranges, the first one of each with them
/// and the one behind it without, and for no others.
pub proof fn law_layer_speaks_for_its_ranges(layer: SyntaxLayer, offset: int, i: int)
    ensures
        0 <= i < layer.ranges@.len() && layer.ranges@[i].start <= offset < layer.ranges@[i].end
            ==> layer.covers(offset),
        (forall|k: int|
            0 <= k < layer.ranges@.len() ==> offset < (#[trigger] layer.ranges@[k]).start
                || layer.ranges@[k].end <= offset) ==> !layer.covers(offset),
{
}

/// The language at a position is that of the last layer in the list that speaks
/// for its byte, and that of the buffer where none does.
pub proof fn law_language_is_innermost(b: BufferSnapshot, p: Point, k: int)
    ensures
        0 <= k < b.syntax_layers().len() && b.syntax_layers()[k].covers(b.offset_of(p)) && (forall|
            l: int,
        |
            k < l < b.syntax_layers().len() ==> !(#[trigger] b.syntax_layers()[l]).covers(
                b.offset_of(p),
            )) ==> b.language_of(p) == Some(b.syntax_layers()[k].language) && b.layer_at(
            b.offset_of(p),
        ) == Some(b.syntax_layers()[k]),
        (forall|l: int|
            0 <= l < b.syntax_layers().len() ==> !(#[trigger] b.syntax_layers()[l]).covers(
                b.offset_of(p),
            )) ==> b.language_of(p) == b.main_language() && b.layer_at(b.offset_of(p)) is None,
{
    let at = b.offset_of(p);
    let n = b.syntax_layers().len() as int;
    if 0 <= k < n && b.syntax_layers()[k].covers(at) && (forall|l: int|
        k < l < n ==> !(#[trigger] b.syntax_layers()[l]).covers(at)) {
        lemma_layer_below_is(b, at, k, n);
    }
    if forall|l: int| 0 <= l < n ==> !(#[trigger] b.syntax_layers()[l]).covers(at) {
        lemma_no_layer_below(b, at, n);
    }
}

proof fn lemma_layer_below_is(b: BufferSnapshot, offset: int, k: int, n: int)
    requires
        0 <= k < n <= b.syntax_layers().len(),
        b.syntax_layers()[k].covers(offset),
        forall|l: int| k < l < n ==> !(#[trigger] b.syntax_layers()[l]).covers(offset),
    ensures
        b.layer_below(offset, n) == Some(b.syntax_layers()[k]),
    decreases n,
{
    if n > k + 1 {
        assert(!b.syntax_layers()[n - 1].covers(offset));
        lemma_layer_below_is(b, offset, k, n - 1);
    }
}

proof fn lemma_no_layer_below(b: BufferSnapshot, offset: int, n: int)
    requires
        n <= b.syntax_layers().len(),
        forall|l: int| 0 <= l < n ==> !(#[trigger] b.syntax_layers()[l]).covers(offset),
    ensures
        b.layer_below(offset, n) is None,
    decreases n,
{
    if n > 0 {
        assert(!b.syntax_layers()[n - 1].covers(offset));
        lemma_no_layer_below(b, offset, n - 1);
    }
}

/// A row is blank if it holds nothing but white space, and a row below the last
/// one is. A row counts as a comment if its first character that is not white
/// space is a number sign.
pub proof fn law_blank_rows_and_comments(b: BufferSnapshot, row: int, i: int)
    ensures
        row >= b.rows().len() ==> b.row_blank(row) && b.row_blank_or_comment(row),
        0 <= row < b.rows().len() && (forall|k: int|
            0 <= k < b.rows()[row].len() ==> white_space(#[trigger] b.rows()[row][k]))
            ==> b.row_blank(row) && b.row_blank_or_comment(row),
        0 <= row < b.rows().len() && 0 <= i < b.rows()[row].len() && !white_space(
            b.rows()[row][i],
        ) ==> !b.row_blank(row),
        0 <= row < b.rows().len() && 0 <= i < b.rows()[row].len() && !white_space(b.rows()[row][i])
            && (forall|k: int| 0 <= k < i ==> white_space(#[trigger] b.rows()[row][k])) ==> (
        b.row_blank_or_comment(row) <==> b.rows()[row][i] == '#'),
{
    if 0 <= row < b.rows().len() {
        let text = b.rows()[row];
        assert(b.row_text(row) == text);
        if 0 <= i < text.len() && !white_space(text[i]) && (forall|k: int|
            0 <= k < i ==> white_space(#[trigger] text[k])) {
            if text[i] == '#' {
                assert(blank(text.take(i)));
                assert(first_visible_is(text, '#'));
            }
            if first_visible_is(text, '#') {
                let k = choose|k: int|
                    0 <= k < text.len() && #[trigger] text[k] == '#' && !white_space('#') && blank(
                        text.take(k),
                    );
                if k > i {
                    assert(text.take(k)[i] == text[i]);
                } else if k < i {
                    assert(white_space(text[k]));
                }
            }
        }
    }
}

/// Whether a row starts with a text on one line is told by that row alone.
pub proof fn law_row_starts_with_its_own_text(b: BufferSnapshot, row: int, needle: Seq<char>)
    requires
        0 <= row < b.rows().len(),
        forall|k: int| 0 <= k < needle.len() ==> #[trigger] needle[k] != '\n',
    ensures
        b.row_starts_with(row, needle) <==> needle.is_prefix_of(b.rows()[row]),
{
    let line = b.rows()[row];
    let all = b.text_from_row(row);
    assert(all.take(line.len() as int) =~= line);
    if needle.is_prefix_of(line) {
        assert(needle =~= all.take(needle.len() as int));
    }
    if needle.is_prefix_of(all) {
        if needle.len() > line.len() {
            assert(all[line.len() as int] == '\n');
            assert(needle[line.len() as int] == all[line.len() as int]);
        } else {
            assert(needle =~= line.take(needle.len() as int));
        }
    }
}

/// The byte at which each line starts, and the byte behind the text and a line
/// feed.
fn line_starts(lines: &Vec<Vec<char>>) -> (r: Vec<usize>)
    requires
        lines_fit(Seq::new(lines@.len(), |k: int| lines@[k]@)),
    ensures
        r@.len() == lines@.len() + 1,
        forall|k: int|
            0 <= k <= lines@.len() ==> #[trigger] r@[k] == bytes_before(
                Seq::new(lines@.len(), |k: int| lines@[k]@),
                k,
            ),
{
    let ghost rows = Seq::new(lines@.len(), |k: int| lines@[k]@);
    let mut starts: Vec<usize> = Vec::new();
    let mut at: usize = 0;
    let mut row: usize = 0;
    starts.push(at);
    while row < lines.len()
        invariant
            row <= lines@.len(),
            rows == Seq::new(lines@.len(), |k: int| lines@[k]@),
            lines_fit(rows),
            starts@.len() == row + 1,
            at == bytes_before(rows, row as int),
            forall|k: int| 0 <= k <= row ==> #[trigger] starts@[k] == bytes_before(rows, k),
        decreases lines@.len() - row,
    {
        proof {
            assert(rows[row as int] == lines@[row as int]@);
            lemma_bytes_before_mono(rows, row as int + 1, rows.len() as int);
        }
        if let Some(n) = measure(&lines[row]) {
            at = at + n as usize + 1;
        }
        starts.push(at);
        row += 1;
    }
    starts
}

/// Whether `p` is a position of the text whose lines start at `starts`, and
/// `byte` its offset.
fn is_place(
    starts: &Vec<usize>,
    Ghost(lines): Ghost<Seq<Seq<char>>>,
    p: Point,
    byte: usize,
) -> (r: bool)
    requires
        lines_fit(lines),
        starts@.len() == lines.len() + 1,
        forall|k: int| 0 <= k <= lines.len() ==> #[trigger] starts@[k] == bytes_before(lines, k),
    ensures
        r == is_position(lines, p, byte as int),
{
    let row: usize = p.row as usize;
    if row >= starts.len() - 1 {
        return false;
    }
    let start: usize = starts[row];
    let next: usize = starts[row + 1];
    p.column as usize <= next - start - 1 && byte == start + p.column as usize
}

/// Whether a layer is a parse of the text whose lines start at `starts`.
fn is_parse(layer: &SyntaxLayer, starts: &Vec<usize>, Ghost(lines): Ghost<Seq<Seq<char>>>) -> (r:
    bool)
    requires
        layer.tree.wf(),
        lines_fit(lines),
        starts@.len() == lines.len() + 1,
        forall|k: int| 0 <= k <= lines.len() ==> #[trigger] starts@[k] == bytes_before(lines, k),
    ensures
        r == layer.fits(lines),
{
    let tree = &layer.tree;
    let len: usize = tree.len();
    let mut i: usize = 0;
    while i < len
        invariant
            i <= len,
            len == tree@.len(),
            tree.wf(),
            *tree == layer.tree,
            lines_fit(lines),
            starts@.len() == lines.len() + 1,
            forall|k: int|
                0 <= k <= lines.len() ==> #[trigger] starts@[k] == bytes_before(lines, k),
            forall|k: int| 0 <= k < i ==> node_fits(lines, tree@, #[trigger] tree@[k]),
        decreases len - i,
    {
        let node = tree.node(i);
        let inside: bool = match node.parent {
            Some(p) => tree.node(p).start_byte <= node.start_byte && node.end_byte <= tree.node(
                p,
            ).end_byte,
            None => true,
        };
        if !inside || node.start_byte > node.end_byte || !is_place(
            starts,
            Ghost(lines),
            node.start_position,
            node.start_byte,
        ) || !is_place(starts, Ghost(lines), node.end_position, node.end_byte) {
            assert(!node_fits(lines, layer.tree@, layer.tree@[i as int]));
            return false;
        }
        i += 1;
    }
    true
}

impl BufferSnapshot {
    /// A snapshot of a buffer with the given text, if rows, columns and offsets
    /// of the text fit in their integers and every layer is a parse of the text.
    /// `layers` lists the layers, the outermost first.
    pub fn new(text: &str, language: Option<Language>, layers: Vec<SyntaxLayer>) -> (r: Option<
        BufferSnapshot,
    >)
        requires
            forall|i: int| 0 <= i < layers@.len() ==> (#[trigger] layers@[i]).tree.wf(),
        ensures
            r is Some <==> lines_fit(split_lines(text@)) && layers_fit(
                split_lines(text@),
                layers@,
            ),
            r matches Some(b) ==> {
                &&& b.wf()
                &&& b.rows() == split_lines(text@)
                &&& b.text() == text@
                &&& b.main_language() == language
                &&& b.syntax_layers() == layers@
            },
    {
        let mut lines: Vec<Vec<char>> = Vec::new();
        let mut line: Vec<char> = Vec::new();
        for c in it: text.chars()
            invariant
                it.seq() == text@,
                Seq::new(lines@.len(), |k: int| lines@[k]@).push(line@) =~= split_lines(
                    text@.take(it.index() as int),
                ),
        {
            let ghost before = text@.take(it.index() as int);
            let ghost after = text@.take(it.index() as int + 1);
            assert(after.drop_last() =~= before && after.last() == c);
            if c == '\n' {
                lines.push(line);
                line = Vec::new();
            } else {
                line.push(c);
            }
        }
        assert(text@.take(text@.len() as int) =~= text@);
        lines.push(line);
        let ghost rows = Seq::new(lines@.len(), |k: int| lines@[k]@);
        assert(rows =~= split_lines(text@));
        proof {
            lemma_split_no_feed(text@);
            lemma_join_split(text@);
        }
        if !measure_all(&lines) {
            return None;
        }
        let starts: Vec<usize> = line_starts(&lines);
        let mut i: usize = 0;
        while i < layers.len()
            invariant
                i <= layers@.len(),
                lines_fit(rows),
                rows == split_lines(text@),
                starts@.len() == rows.len() + 1,
                forall|k: int|
                    0 <= k <= rows.len() ==> #[trigger] starts@[k] == bytes_before(rows, k),
                forall|k: int| 0 <= k < layers@.len() ==> (#[trigger] layers@[k]).tree.wf(),
                forall|k: int| 0 <= k < i ==> (#[trigger] layers@[k]).fits(rows),
            decreases layers@.len() - i,
        {
            if !is_parse(&layers[i], &starts, Ghost(rows)) {
                assert(!layers@[i as int].fits(rows));
                return None;
            }
            i += 1;
        }
        let snapshot = BufferSnapshot { lines, language, layers };
        assert(snapshot.rows() =~= rows);
        Some(snapshot)
    }

    /// The language of the buffer as a whole.
    pub fn language(&self) -> (r: Option<&Language>)
        ensures
            match self.main_language() {
                Some(language) => r matches Some(found) && *found == language,
                None => r is None,
            },
    {
        self.language.as_ref()
    }

    /// The last row of the buffer.
    pub fn max_row(&self) -> (r: u32)
        requires
            self.wf(),
        ensures
            r == self.last_row(),
    {
        assert(self.rows().len() == self.lines@.len());
        (self.lines.len() - 1) as u32
    }

    /// The position at the end of the buffer.
    pub fn max_point(&self) -> (r: Point)
        requires
            self.wf(),
        ensures
            r == self.end_point(),
            r.row == self.last_row(),
            r.column == self.row_len(self.last_row()),
    {
        let row: u32 = self.max_row();
        Point { row, column: self.line_len(row) }
    }

    /// The number of bytes in a row, without its line feed. It is zero for a row
    /// below the last one.
    pub fn line_len(&self, row: u32) -> (r: u32)
        requires
            self.wf(),
        ensures
            r == self.row_len(row as int),
    {
        assert(self.rows().len() == self.lines@.len());
        if (row as usize) < self.lines.len() {
            assert(self.rows()[row as int] == self.lines@[row as int]@);
            match measure(&self.lines[row as usize]) {
                Some(n) => n,
                None => {
                    assert(false);
                    0
                },
            }
        } else {
            0
        }
    }

    /// Whether a row has no character but white space. So it is for a row below
    /// the last one.
    pub fn is_line_blank(&self, row: u32) -> (r: bool)
        ensures
            r == self.row_blank(row as int),
    {
        assert(self.rows().len() == self.lines@.len());
        if (row as usize) < self.lines.len() {
            assert(self.rows()[row as int] == self.lines@[row as int]@);
            indent_of(&self.lines[row as usize]).is_none()
        } else {
            true
        }
    }

    /// Whether a row is blank or holds nothing but a comment that starts with a
    /// number sign.
    pub fn is_blank_or_comment(&self, row: u32) -> (r: bool)
        ensures
            r == self.row_blank_or_comment(row as int),
    {
        assert(self.rows().len() == self.lines@.len());
        if (row as usize) < self.lines.len() {
            let line = &self.lines[row as usize];
            let ghost text = line@;
            assert(self.rows()[row as int] == text);
            match indent_of(line) {
                Some(i) => {
                    proof {
                        if text[i as int] == '#' {
                            assert(first_visible_is(text, '#'));
                        }
                        if first_visible_is(text, '#') {
                            let k = choose|k: int|
                                0 <= k < text.len() && #[trigger] text[k] == '#' && !white_space('#')
                                    && blank(text.take(k));
                            if k > i {
                                assert(text.take(k)[i as int] == text[i as int]);
                            } else if k < i {
                                assert(text.take(i as int)[k] == text[k]);
                            }
                        }
                    }
                    line[i] == '#'
                },
                None => true,
            }
        } else {
            true
        }
    }

    /// The byte at which a row starts.
    fn row_offset(&self, row: usize) -> (r: usize)
        requires
            self.wf(),
            row < self.rows().len(),
        ensures
            r == bytes_before(self.rows(), row as int),
            r + self.row_len(row as int) < usize::MAX,
            r + self.row_len(row as int) <= self.byte_len(),
    {
        assert(self.rows().len() == self.lines@.len());
        proof {
            lemma_bytes_before_mono(self.rows(), row as int + 1, self.rows().len() as int);
        }
        let mut at: usize = 0;
        let mut k: usize = 0;
        while k < row
            invariant
                self.wf(),
                k <= row < self.rows().len(),
                self.rows().len() == self.lines@.len(),
                at == bytes_before(self.rows(), k as int),
            decreases row - k,
        {
            let n: u32 = self.line_len(k as u32);
            proof {
                lemma_bytes_before_mono(self.rows(), k as int + 1, self.rows().len() as int);
            }
            at = at + n as usize + 1;
            k += 1;
        }
        at
    }

    /// The offset of a position.
    pub fn point_to_offset(&self, p: Point) -> (r: usize)
        requires
            self.wf(),
        ensures
            r == self.offset_of(p),
            r <= self.byte_len(),
    {
        assert(self.rows().len() == self.lines@.len());
        let point = if (p.row as usize) < self.lines.len() {
            p
        } else {
            self.max_point()
        };
        let start: usize = self.row_offset(point.row as usize);
        let len: u32 = self.line_len(point.row);
        if point.column <= len {
            start + point.column as usize
        } else {
            start + len as usize
        }
    }

    /// The position of an offset.
    pub fn offset_to_point(&self, offset: usize) -> (r: Point)
        requires
            self.wf(),
        ensures
            r == self.point_at(offset as int),
            self.holds_point(r),
            offset <= self.byte_len() ==> self.offset_of(r) == offset,
    {
        let end: usize = self.point_to_offset(self.max_point());
        let at: usize = if offset <= end {
            offset
        } else {
            end
        };
        let mut row: usize = self.max_row() as usize;
        let mut start: usize = self.row_offset(row);
        proof {
            assert(end == self.byte_len());
        }
        while row > 0 && start > at
            invariant
                self.wf(),
                row < self.rows().len(),
                at <= self.byte_len(),
                start == bytes_before(self.rows(), row as int),
                self.row_at(at as int) == self.row_at_from(at as int, row as int),
                row == self.rows().len() - 1 || at < bytes_before(self.rows(), row as int + 1),
            decreases row,
        {
            row -= 1;
            start = self.row_offset(row);
        }
        Point { row: row as u32, column: (at - start) as u32 }
    }

    /// Whether the text of the buffer goes on with `needle` at the start of a
    /// row.
    pub fn contains_str_at_row(&self, row: u32, needle: &Vec<char>) -> (r: bool)
        ensures
            r == self.row_starts_with(row as int, needle@),
    {
        assert(self.rows().len() == self.lines@.len());
        if needle.len() == 0 {
            return true;
        }
        if row as usize >= self.lines.len() {
            return false;
        }
        let ghost whole = self.text_from_row(row as int);
        let mut at: usize = row as usize;
        let mut column: usize = 0;
        let mut i: usize = 0;
        while i < needle.len()
            invariant
                i <= needle@.len(),
                self.rows().len() == self.lines@.len(),
                at < self.lines@.len(),
                column <= self.rows()[at as int].len(),
                i <= whole.len(),
                whole == self.text_from_row(row as int),
                whole.skip(i as int) =~= self.text_from_row(at as int).skip(column as int),
                forall|k: int| 0 <= k < i ==> needle@[k] == whole[k],
            decreases needle@.len() - i,
        {
            let ghost line = self.rows()[at as int];
            let ghost tail = self.text_from_row(at as int);
            let ghost rest = whole.skip(i as int);
            assert(line == self.lines@[at as int]@);
            assert(rest.len() == whole.len() - i);
            assert(tail.len() >= line.len());
            if column < self.lines[at].len() {
                assert(rest[0] == line[column as int]);
                assert(rest[0] == whole[i as int]);
                if needle[i] != self.lines[at][column] {
                    return false;
                }
                assert(whole.skip(i as int + 1) =~= rest.skip(1));
                assert(tail.skip(column as int + 1) =~= tail.skip(column as int).skip(1));
                column += 1;
            } else {
                if at == self.lines.len() - 1 {
                    assert(rest.len() == 0);
                    return false;
                }
                assert(rest[0] == '\n');
                assert(rest[0] == whole[i as int]);
                if needle[i] != '\n' {
                    return false;
                }
                assert(whole.skip(i as int + 1) =~= rest.skip(1));
                assert(tail.skip(column as int).skip(1) =~= self.text_from_row(at as int + 1));
                at += 1;
                column = 0;
                assert(self.text_from_row(at as int).skip(0) =~= self.text_from_row(at as int));
            }
            i += 1;
        }
        true
    }

    /// The innermost syntax layer at `offset`.
    pub fn syntax_layer_at(&self, offset: usize) -> (r: Option<&SyntaxLayer>)
        requires
            self.wf(),
        ensures
            match self.layer_at(offset as int) {
                Some(layer) => r matches Some(found) && *found == layer && layer.tree.wf(),
                None => r is None,
            },
    {
        let mut n: usize = self.layers.len();
        while n > 0
            invariant
                self.wf(),
                self.layers@ == self.syntax_layers(),
                n <= self.layers@.len(),
                self.layer_at(offset as int) == self.layer_below(offset as int, n as int),
            decreases n,
        {
            if self.layers[n - 1].is_at(offset) {
                return Some(&self.layers[n - 1]);
            }
            n -= 1;
        }
        None
    }

    /// The language at a position.
    pub fn language_at(&self, p: Point) -> (r: Option<&Language>)
        requires
            self.wf(),
        ensures
            match self.language_of(p) {
                Some(language) => r matches Some(found) && *found == language,
                None => r is None,
            },
    {
        match self.syntax_layer_at(self.point_to_offset(p)) {
            Some(layer) => Some(&layer.language),
            None => self.language.as_ref(),
        }
    }

    /// Whether both ends of a range lie in one language.
    pub fn is_one_language(&self, range: &Range<Point>) -> (r: bool)
        requires
            self.wf(),
        ensures
            r == self.one_language(*range),
    {
        match (self.language_at(range.start), self.language_at(range.end)) {
            (Some(start), Some(end)) => start.same_as(end),
            _ => false,
        }
    }

    /// The text in front of column `i` of row `row`, in characters.
    spec fn text_until(self, row: int, i: int) -> Seq<char> {
        if row == 0 {
            self.rows()[0].take(i)
        } else {
            join_lines(self.rows(), row).push('\n') + self.rows()[row].take(i)
        }
    }

    proof fn lemma_text_until(self, row: int, i: int)
        requires
            self.wf(),
            0 <= row < self.rows().len(),
            0 <= i <= self.rows()[row].len(),
        ensures
            text_len(self.text_until(row, i)) <= self.byte_len(),
            i == self.rows()[row].len() ==> self.text_until(row, i) == join_lines(
                self.rows(),
                row + 1,
            ),
            i < self.rows()[row].len() ==> self.text_until(row, i + 1) == self.text_until(
                row,
                i,
            ).push(self.rows()[row][i]),
            i == self.rows()[row].len() && row + 1 < self.rows().len() ==> self.text_until(
                row + 1,
                0,
            ) == self.text_until(row, i).push('\n'),
    {
        let lines = self.rows();
        let line = lines[row];
        lemma_text_len_take(line, i);
        lemma_bytes_before_mono(lines, row + 1, lines.len() as int);
        if row > 0 {
            lemma_joined_len(lines, row);
            lemma_text_len_concat(join_lines(lines, row).push('\n'), line.take(i));
            assert(join_lines(lines, row).push('\n').drop_last() =~= join_lines(lines, row));
        }
        if i == line.len() {
            assert(line.take(i) =~= line);
            if row + 1 < lines.len() {
                assert(self.text_until(row + 1, 0) =~= self.text_until(row, i).push('\n'));
            }
        } else {
            assert(self.text_until(row, i + 1) =~= self.text_until(row, i).push(line[i]));
        }
    }

    /// The text of a range.
    pub fn text_for_range(&self, range: &Range<Point>) -> (r: String)
        requires
            self.wf(),
        ensures
            r@ == self.range_text(*range),
    {
        assert(self.rows().len() == self.lines@.len());
        let from: usize = self.point_to_offset(range.start);
        let to: usize = self.point_to_offset(range.end);
        let mut out = String::new();
        let mut offset: usize = 0;
        let mut row: usize = 0;
        let count: usize = self.lines.len();
        assert(self.text_until(0, 0) =~= Seq::<char>::empty());
        while row < count
            invariant
                self.wf(),
                self.rows().len() == self.lines@.len(),
                count == self.lines@.len(),
                row <= count,
                row < count ==> offset == text_len(self.text_until(row as int, 0)) && out@
                    == byte_slice(self.text_until(row as int, 0), from as int, to as int),
                row == count ==> out@ == byte_slice(self.text(), from as int, to as int),
            decreases count - row,
        {
            assert(self.rows()[row as int] == self.lines@[row as int]@);
            let line = &self.lines[row];
            let mut i: usize = 0;
            while i < line.len()
                invariant
                    self.wf(),
                    row < self.rows().len(),
                    line@ == self.rows()[row as int],
                    i <= line@.len(),
                    offset == text_len(self.text_until(row as int, i as int)),
                    out@ == byte_slice(
                        self.text_until(row as int, i as int),
                        from as int,
                        to as int,
                    ),
                decreases line@.len() - i,
            {
                let c = line[i];
                proof {
                    self.lemma_text_until(row as int, i as int);
                    self.lemma_text_until(row as int, i as int + 1);
                    let next = self.text_until(row as int, i as int + 1);
                    assert(next.drop_last() =~= self.text_until(row as int, i as int));
                }
                if from <= offset && offset < to {
                    out.push(c);
                }
                offset = offset + utf8_len(c);
                i += 1;
            }
            proof {
                self.lemma_text_until(row as int, i as int);
                if row + 1 < count {
                    self.lemma_text_until(row as int + 1, 0);
                    let next = self.text_until(row as int + 1, 0);
                    assert(next.drop_last() =~= self.text_until(row as int, i as int));
                }
            }
            if row + 1 < count {
                if from <= offset && offset < to {
                    out.push('\n');
                }
                offset = offset + 1;
            }
            row += 1;
        }
        out
    }
}

} // verus!
