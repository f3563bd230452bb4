//! Statements: the syntax node that a run command means when the cursor stands
//! somewhere in the text.
use std::ops::Range;

use vstd::prelude::*;

use crate::buffer::{
    law_point_offset_point, law_points_in_order, node_fits, BufferSnapshot, SyntaxLayer,
};
use crate::point::Point;
use crate::syntax::SyntaxTree;
use crate::text::{same_text, text_len};

verus! {

/// The kinds of a root node: of Python, of JavaScript and TypeScript, of Rust
/// and Go, of Lua, of C and C++.
pub open spec fn root_kind(kind: Seq<char>) -> bool {
    ||| kind == "module"@
    ||| kind == "program"@
    ||| kind == "source_file"@
    ||| kind == "chunk"@
    ||| kind == "translation_unit"@
}

/// The kinds of a clause that belongs to a larger block.
pub open spec fn clause_kind(kind: Seq<char>) -> bool {
    ||| kind == "else_clause"@
    ||| kind == "elif_clause"@
    ||| kind == "except_clause"@
    ||| kind == "finally_clause"@
    ||| kind == "case_clause"@
}

/// The kinds of a block statement that stands by itself.
pub open spec fn block_kind(kind: Seq<char>) -> bool {
    ||| kind == "for_statement"@
    ||| kind == "while_statement"@
    ||| kind == "with_statement"@
    ||| kind == "try_statement"@
    ||| kind == "match_statement"@
    ||| kind == "async_for_statement"@
    ||| kind == "async_with_statement"@
}

/// The kinds of a block that can have clauses.
pub open spec fn owner_kind(kind: Seq<char>) -> bool {
    ||| kind == "if_statement"@
    ||| kind == "for_statement"@
    ||| kind == "while_statement"@
    ||| kind == "try_statement"@
    ||| kind == "match_statement"@
}

/// The kinds of a function or a class definition.
pub open spec fn definition_kind(kind: Seq<char>) -> bool {
    ||| kind == "function_definition"@
    ||| kind == "class_definition"@
    ||| kind == "async_function_definition"@
}

/// The kinds of a suite in braces: of JavaScript and TypeScript, of C and C++.
pub open spec fn brace_kind(kind: Seq<char>) -> bool {
    ||| kind == "statement_block"@
    ||| kind == "compound_statement"@
}

/// The kinds of a suite, the statements that a head stands in front of: that of
/// Python, Rust, Go and Lua, and those in braces.
pub open spec fn suite_kind(kind: Seq<char>) -> bool {
    kind == "block"@ || brace_kind(kind)
}

/// The parent of node `i`.
pub open spec fn parent_of(tree: SyntaxTree, i: int) -> Option<int> {
    match tree@[i].parent {
        Some(p) => if 0 <= i < tree@.len() && p < i {
            Some(p as int)
        } else {
            None
        },
        None => None,
    }
}

/// Whether node `i` stands directly below a root node.
pub open spec fn below_root(tree: SyntaxTree, i: int) -> bool {
    match parent_of(tree, i) {
        Some(p) => root_kind(tree.kind_of(p)),
        None => false,
    }
}

/// The innermost node around node `i`, itself among them, that stands directly
/// below a root node.
pub open spec fn top_level_of(tree: SyntaxTree, i: int) -> Option<int>
    decreases i,
{
    if below_root(tree, i) {
        Some(i)
    } else {
        match parent_of(tree, i) {
            Some(p) => if 0 <= p < i {
                top_level_of(tree, p)
            } else {
                None
            },
            None => None,
        }
    }
}

/// The innermost block around node `i`, itself not among them, that can have
/// clauses.
pub open spec fn owner_of(tree: SyntaxTree, i: int) -> Option<int>
    decreases i,
{
    match parent_of(tree, i) {
        Some(p) => if owner_kind(tree.kind_of(p)) {
            Some(p)
        } else if 0 <= p < i {
            owner_of(tree, p)
        } else {
            None
        },
        None => None,
    }
}

/// The outermost node that is reached from node `i` through parents that are
/// all `if` statements.
pub open spec fn outer_if_of(tree: SyntaxTree, i: int) -> int
    decreases i,
{
    match parent_of(tree, i) {
        Some(p) => if tree.kind_of(p) == "if_statement"@ && 0 <= p < i {
            outer_if_of(tree, p)
        } else {
            i
        },
        None => i,
    }
}

/// Whether `row` lies above the body of the definition `i`. It does if there is
/// no body.
pub open spec fn in_header(tree: SyntaxTree, i: int, row: u32) -> bool {
    match tree.body_of(i) {
        Some(body) => row < tree.start_row(body),
        None => true,
    }
}

/// The first child of node `i`, from node `j` on, that is a suite.
pub open spec fn suite_from(tree: SyntaxTree, i: int, j: int) -> Option<int>
    decreases tree@.len() - j,
{
    if j >= tree@.len() {
        None
    } else if tree.is_child(i, j) && suite_kind(tree.kind_of(j)) {
        Some(j)
    } else {
        suite_from(tree, i, j + 1)
    }
}

/// The suite of the block or the clause `i`: what its head is in front of.
pub open spec fn suite_of(tree: SyntaxTree, i: int) -> Option<int> {
    suite_from(tree, i, i + 1)
}

/// Whether a node in front of the suite `b`, with the same parent, ends on the
/// row on which the suite starts.
pub open spec fn shares_row(tree: SyntaxTree, b: int) -> bool {
    exists|j: int|
        0 <= j < b && (#[trigger] tree@[j]).parent is Some && tree@[j].parent == tree@[b].parent
            && tree.end_row(j) == tree.start_row(b)
}

/// Whether the `block` with the number `b` follows its head on one row, and that
/// row cannot run from its start on: the head starts further up, or it is that
/// of a clause.
pub open spec fn hangs(tree: SyntaxTree, b: int) -> bool {
    match parent_of(tree, b) {
        Some(p) => tree.kind_of(b) == "block"@ && (tree.start_row(p) < tree.start_row(b) || clause_kind(tree.kind_of(p)))
            && shares_row(tree, b),
        None => false,
    }
}

/// Whether `row` is a row of the head of the block or the clause `i`: the first
/// row, or one between it and the suite, or the first row of the suite if the
/// head ends there. A `block` that cannot stand without the head belongs to it.
pub open spec fn in_head(tree: SyntaxTree, i: int, row: u32) -> bool {
    ||| tree.start_row(i) == row
    ||| tree.start_row(i) < row && (match suite_of(tree, i) {
        Some(b) => row < tree.start_row(b) || (row == tree.start_row(b) && shares_row(tree, b)) || (
        hangs(tree, b) && row <= tree.end_row(b)),
        None => false,
    })
}

/// The unit that node `i` makes run as a whole when the cursor is on `row`:
/// - the whole `if` statement, if `i` is one and the row is part of its head;
/// - the definition, if `i` is one and the row is part of its header;
/// - the block that owns the clause, if `i` is a clause and the row is part of
///   its head;
/// - the block statement, if `i` is one and the row is part of its head.
pub open spec fn unit_of(tree: SyntaxTree, i: int, row: u32) -> Option<int> {
    let kind = tree.kind_of(i);
    let head = in_head(tree, i, row);
    if kind == "if_statement"@ && head {
        Some(outer_if_of(tree, i))
    } else if definition_kind(kind) && in_header(tree, i, row) {
        Some(i)
    } else if clause_kind(kind) && head && owner_of(tree, i) is Some {
        owner_of(tree, i)
    } else if block_kind(kind) && head {
        Some(i)
    } else {
        None
    }
}

/// Whether node `i` is an expression or a simple statement that goes over more
/// than one row.
pub open spec fn spans_rows(tree: SyntaxTree, i: int) -> bool {
    let kind = tree.kind_of(i);
    &&& kind != "block"@
    &&& !block_kind(kind)
    &&& !clause_kind(kind)
    &&& kind != "if_statement"@
    &&& tree@[i].start_position.row != tree@[i].end_position.row
}

/// Whether the way to the outside ends at node `i`, where `first` is the row on
/// which what was found further inside starts:
/// - at a `block`, unless it starts on that row and cannot stand without its
///   head;
/// - at a suite in braces, unless it starts on that row.
pub open spec fn ends_at(tree: SyntaxTree, i: int, first: u32) -> bool {
    let kind = tree.kind_of(i);
    ||| kind == "block"@ && !(hangs(tree, i) && tree.start_row(i) == first)
    ||| brace_kind(kind) && tree.start_row(i) != first
}

/// The row on which what was found up to node `i` starts, where `first` is the
/// row on which it started further inside. The closing brace of a suite stands
/// for the whole suite.
pub open spec fn found_row(tree: SyntaxTree, i: int, first: u32) -> u32 {
    if spans_rows(tree, i) {
        tree.start_row(i)
    } else {
        match parent_of(tree, i) {
            Some(p) => if tree.kind_of(i) == "}"@ && brace_kind(tree.kind_of(p)) {
                tree.start_row(p)
            } else {
                first
            },
            None => first,
        }
    }
}

/// The node to run when the cursor is on `row` at node `i`. The nodes around
/// `i` are taken from the inside to the outside, up to the next suite or to the
/// top level: the first one with a unit decides, and without any it is the
/// outermost one that goes over more than one row. `first` is the row on which
/// what was found further inside starts, `row` itself at the beginning.
pub open spec fn statement_of(tree: SyntaxTree, i: int, row: u32, first: u32) -> Option<int>
    decreases i,
{
    if ends_at(tree, i, first) {
        None
    } else if unit_of(tree, i, row) is Some {
        unit_of(tree, i, row)
    } else {
        let outer = match parent_of(tree, i) {
            Some(p) => if 0 <= p < i && !root_kind(tree.kind_of(p)) {
                statement_of(tree, p, row, found_row(tree, i, first))
            } else {
                None
            },
            None => None,
        };
        if outer is Some {
            outer
        } else if spans_rows(tree, i) {
            Some(i)
        } else {
            None
        }
    }
}

/// The range of node `i` from the start of its first row on, so that the
/// indentation in front of it belongs to the range.
pub open spec fn range_from_line_start(
    buffer: BufferSnapshot,
    tree: SyntaxTree,
    i: int,
) -> Range<Point> {
    Range {
        start: Point { row: tree.start_row(i), column: 0 },
        end: buffer.point_at(tree@[i].end_byte as int),
    }
}

/// The range of node `i`.
pub open spec fn node_range(buffer: BufferSnapshot, tree: SyntaxTree, i: int) -> Range<Point> {
    Range {
        start: buffer.point_at(tree@[i].start_byte as int),
        end: buffer.point_at(tree@[i].end_byte as int),
    }
}

/// A row from its start to its end.
pub open spec fn whole_row(buffer: BufferSnapshot, row: u32) -> Range<Point> {
    Range {
        start: Point { row, column: 0 },
        end: Point { row, column: buffer.row_len(row as int) as u32 },
    }
}

/// Whether `node` is a node of the innermost layer at `offset`. Where no layer is
/// or no offset is given, there is no node to tell.
pub open spec fn lands(buffer: BufferSnapshot, offset: Option<int>, node: Option<usize>) -> bool {
    offset matches Some(at) ==> (buffer.layer_at(at) matches Some(layer) ==> (node matches Some(n)
        && n < layer.tree@.len()))
}

/// The offset at which a block is looked for. There is none if the selection is
/// not empty.
pub open spec fn block_place(buffer: BufferSnapshot, selection: Range<Point>) -> Option<int> {
    let offset = buffer.offset_of(selection.start);
    if offset != buffer.offset_of(selection.end) {
        None
    } else {
        Some(offset)
    }
}

/// The top-level block around a node at the cursor, or the selection if there is
/// one.
pub open spec fn block_at(
    buffer: BufferSnapshot,
    selection: Range<Point>,
    node: Option<usize>,
) -> Option<Range<Point>> {
    match block_place(buffer, selection) {
        Some(offset) => match (buffer.layer_at(offset), node) {
            (Some(layer), Some(n)) => match top_level_of(layer.tree, n as int) {
                Some(i) => Some(node_range(buffer, layer.tree, i)),
                None => None,
            },
            _ => None,
        },
        None => Some(selection),
    }
}

/// The first row from `row` on that is neither blank nor a comment, or the row
/// behind the last one.
pub open spec fn next_executable_row(buffer: BufferSnapshot, row: int) -> int
    decreases buffer.rows().len() - row,
{
    if row >= buffer.rows().len() || !buffer.row_blank_or_comment(row) {
        row
    } else {
        next_executable_row(buffer, row + 1)
    }
}

/// The offset at which the statement of a row is looked for: that of the
/// column, kept in front of the end of the row, which would belong to the next
/// row.
pub open spec fn cursor_offset(buffer: BufferSnapshot, row: u32, column: u32) -> int {
    let len = buffer.row_len(row as int);
    let inside = if len == 0 {
        0
    } else if column < len {
        column as int
    } else {
        len - 1
    };
    buffer.offset_of(Point { row, column: inside as u32 })
}

/// The smallest complete statement at a column of a row that is neither blank
/// nor a comment, around a node there.
pub open spec fn statement_at(
    buffer: BufferSnapshot,
    row: u32,
    column: u32,
    node: Option<usize>,
) -> Range<Point> {
    match (buffer.layer_at(cursor_offset(buffer, row, column)), node) {
        (Some(layer), Some(n)) => match statement_of(layer.tree, n as int, row, row) {
            Some(i) => range_from_line_start(buffer, layer.tree, i),
            None => whole_row(buffer, row),
        },
        _ => whole_row(buffer, row),
    }
}

/// The position whose statement is looked for. A row that is blank or a comment
/// stands for the next row that is neither, if there is one.
pub open spec fn executable_point(buffer: BufferSnapshot, at: Point) -> Option<Point> {
    if !buffer.row_blank_or_comment(at.row as int) {
        Some(at)
    } else if next_executable_row(buffer, at.row + 1) < buffer.rows().len() {
        Some(Point { row: next_executable_row(buffer, at.row + 1) as u32, column: 0 })
    } else {
        None
    }
}

/// The offset at which the statement at the start of a range is looked for.
pub open spec fn line_place(buffer: BufferSnapshot, range: Range<Point>) -> Option<int> {
    match executable_point(buffer, range.start) {
        Some(p) => Some(cursor_offset(buffer, p.row, p.column)),
        None => None,
    }
}

/// The smallest complete statement at the start of a range, around a node there.
/// If there is no row to run, the result is the empty range at the start of the
/// row.
pub open spec fn runnable_line(
    buffer: BufferSnapshot,
    range: Range<Point>,
    node: Option<usize>,
) -> Range<Point> {
    match executable_point(buffer, range.start) {
        Some(p) => statement_at(buffer, p.row, p.column, node),
        None => {
            let start = Point { row: range.start.row, column: 0 };
            Range { start, end: start }
        },
    }
}

fn is_root_kind(kind: &String) -> (r: bool)
    ensures
        r == root_kind(kind@),
{
    same_text(kind, "module") || same_text(kind, "program") || same_text(kind, "source_file")
        || same_text(kind, "chunk") || same_text(kind, "translation_unit")
}

fn is_clause_kind(kind: &String) -> (r: bool)
    ensures
        r == clause_kind(kind@),
{
    same_text(kind, "else_clause") || same_text(kind, "elif_clause") || same_text(
        kind,
        "except_clause",
    ) || same_text(kind, "finally_clause") || same_text(kind, "case_clause")
}

fn is_block_kind(kind: &String) -> (r: bool)
    ensures
        r == block_kind(kind@),
{
    same_text(kind, "for_statement") || same_text(kind, "while_statement") || same_text(
        kind,
        "with_statement",
    ) || same_text(kind, "try_statement") || same_text(kind, "match_statement") || same_text(
        kind,
        "async_for_statement",
    ) || same_text(kind, "async_with_statement")
}

fn is_owner_kind(kind: &String) -> (r: bool)
    ensures
        r == owner_kind(kind@),
{
    same_text(kind, "if_statement") || same_text(kind, "for_statement") || same_text(
        kind,
        "while_statement",
    ) || same_text(kind, "try_statement") || same_text(kind, "match_statement")
}

fn is_definition_kind(kind: &String) -> (r: bool)
    ensures
        r == definition_kind(kind@),
{
    same_text(kind, "function_definition") || same_text(kind, "class_definition") || same_text(
        kind,
        "async_function_definition",
    )
}

fn is_brace_kind(kind: &String) -> (r: bool)
    ensures
        r == brace_kind(kind@),
{
    same_text(kind, "statement_block") || same_text(kind, "compound_statement")
}

/// The suite of the block or the clause `i`.
fn suite(tree: &SyntaxTree, i: usize) -> (r: Option<usize>)
    requires
        tree.wf(),
        i < tree@.len(),
    ensures
        match suite_of(*tree, i as int) {
            Some(b) => r matches Some(found) && found == b && i < b < tree@.len(),
            None => r is None,
        },
{
    let len: usize = tree.len();
    let mut j: usize = i + 1;
    while j < len
        invariant
            len == tree@.len(),
            i < j <= tree@.len(),
            suite_of(*tree, i as int) == suite_from(*tree, i as int, j as int),
        decreases tree@.len() - j,
    {
        let node = tree.node(j);
        let child: bool = match node.parent {
            Some(p) => p == i,
            None => false,
        };
        if child && (same_text(&node.kind, "block") || is_brace_kind(&node.kind)) {
            return Some(j);
        }
        j += 1;
    }
    None
}

/// Whether a node in front of the suite `b`, with the same parent, ends on the
/// row on which the suite starts.
fn is_sharing_row(tree: &SyntaxTree, b: usize) -> (r: bool)
    requires
        tree.wf(),
        b < tree@.len(),
    ensures
        r == shares_row(*tree, b as int),
{
    let start: u32 = tree.node(b).start_position.row;
    let parent: usize = match tree.node(b).parent {
        Some(p) => p,
        None => {
            return false;
        },
    };
    let mut j: usize = 0;
    while j < b
        invariant
            j <= b < tree@.len(),
            tree@[b as int].parent == Some(parent),
            start == tree.start_row(b as int),
            forall|k: int|
                0 <= k < j ==> !((#[trigger] tree@[k]).parent == Some(parent) && tree.end_row(k)
                    == start),
        decreases b - j,
    {
        let node = tree.node(j);
        let sibling: bool = match node.parent {
            Some(p) => p == parent,
            None => false,
        };
        if sibling && node.end_position.row == start {
            assert(tree@[j as int].parent == tree@[b as int].parent);
            return true;
        }
        j += 1;
    }
    false
}

/// Whether the `block` with the number `b` follows its head on one row, and that
/// row cannot run from its start on.
fn is_hanging(tree: &SyntaxTree, b: usize) -> (r: bool)
    requires
        tree.wf(),
        b < tree@.len(),
    ensures
        r == hangs(*tree, b as int),
{
    let suite = tree.node(b);
    let head = match suite.parent {
        Some(p) => tree.node(p),
        None => {
            return false;
        },
    };
    same_text(&suite.kind, "block") && (head.start_position.row < suite.start_position.row
        || is_clause_kind(&head.kind)) && is_sharing_row(tree, b)
}

/// Whether the way to the outside ends at node `i`.
fn is_end(tree: &SyntaxTree, i: usize, first: u32) -> (r: bool)
    requires
        tree.wf(),
        i < tree@.len(),
    ensures
        r == ends_at(*tree, i as int, first),
{
    let node = tree.node(i);
    let starts_there: bool = node.start_position.row == first;
    (same_text(&node.kind, "block") && !(starts_there && is_hanging(tree, i))) || (is_brace_kind(
        &node.kind,
    ) && !starts_there)
}

/// Whether `row` is a row of the head of the block or the clause `i`.
fn is_in_head(tree: &SyntaxTree, i: usize, row: u32) -> (r: bool)
    requires
        tree.wf(),
        i < tree@.len(),
    ensures
        r == in_head(*tree, i as int, row),
{
    let start: u32 = tree.node(i).start_position.row;
    if start >= row {
        return start == row;
    }
    match suite(tree, i) {
        Some(b) => {
            let node = tree.node(b);
            let suite_row: u32 = node.start_position.row;
            row < suite_row || (row == suite_row && is_sharing_row(tree, b)) || (row
                <= node.end_position.row && is_hanging(tree, b))
        },
        None => false,
    }
}

/// The block that owns the clause `i`.
pub fn find_parent_block(tree: &SyntaxTree, i: usize) -> (r: Option<usize>)
    requires
        tree.wf(),
        i < tree@.len(),
    ensures
        match owner_of(*tree, i as int) {
            Some(p) => r matches Some(found) && found == p && 0 <= p < i,
            None => r is None,
        },
{
    let mut at: usize = i;
    loop
        invariant
            tree.wf(),
            at <= i < tree@.len(),
            owner_of(*tree, i as int) == owner_of(*tree, at as int),
        decreases at,
    {
        match tree.node(at).parent {
            Some(p) => {
                if is_owner_kind(&tree.node(p).kind) {
                    return Some(p);
                }
                at = p;
            },
            None => {
                return None;
            },
        }
    }
}

/// The outermost node that is reached from node `i` through parents that are
/// all `if` statements.
fn outer_if(tree: &SyntaxTree, i: usize) -> (r: usize)
    requires
        tree.wf(),
        i < tree@.len(),
    ensures
        r == outer_if_of(*tree, i as int),
        r <= i,
{
    let mut outer: usize = i;
    loop
        invariant
            tree.wf(),
            outer <= i < tree@.len(),
            outer_if_of(*tree, i as int) == outer_if_of(*tree, outer as int),
        decreases outer,
    {
        match tree.node(outer).parent {
            Some(p) => {
                if !same_text(&tree.node(p).kind, "if_statement") {
                    return outer;
                }
                outer = p;
            },
            None => {
                return outer;
            },
        }
    }
}

/// The range of node `i` from the start of its first row on.
pub fn node_range_from_line_start(buffer: &BufferSnapshot, tree: &SyntaxTree, i: usize) -> (r:
    Range<Point>)
    requires
        buffer.wf(),
        i < tree@.len(),
    ensures
        r == range_from_line_start(*buffer, *tree, i as int),
        buffer.holds_point(r.end),
{
    let node = tree.node(i);
    Range {
        start: Point::new(node.start_position.row, 0),
        end: buffer.offset_to_point(node.end_byte),
    }
}

/// The unit that node `i` makes run as a whole when the cursor is on `row`.
fn unit(tree: &SyntaxTree, i: usize, row: u32) -> (r: Option<usize>)
    requires
        tree.wf(),
        i < tree@.len(),
    ensures
        match unit_of(*tree, i as int, row) {
            Some(n) => r matches Some(found) && found == n && 0 <= n < tree@.len(),
            None => r is None,
        },
{
    let node = tree.node(i);
    if same_text(&node.kind, "if_statement") && is_in_head(tree, i, row) {
        return Some(outer_if(tree, i));
    }
    if is_definition_kind(&node.kind) {
        let header: bool = match tree.child_body(i) {
            Some(body) => row < tree.node(body).start_position.row,
            None => true,
        };
        if header {
            return Some(i);
        }
    }
    if is_clause_kind(&node.kind) && is_in_head(tree, i, row) {
        match find_parent_block(tree, i) {
            Some(p) => {
                return Some(p);
            },
            None => {},
        }
    }
    if is_block_kind(&node.kind) && is_in_head(tree, i, row) {
        return Some(i);
    }
    None
}

/// The node to run when the cursor is on `row` at node `i`.
fn statement(tree: &SyntaxTree, i: usize, row: u32) -> (r: Option<usize>)
    requires
        tree.wf(),
        i < tree@.len(),
    ensures
        match statement_of(*tree, i as int, row, row) {
            Some(n) => r matches Some(found) && found == n && 0 <= n < tree@.len(),
            None => r is None,
        },
{
    let mut current: usize = i;
    let mut candidate: Option<usize> = None;
    let mut first: u32 = row;
    loop
        invariant
            tree.wf(),
            current <= i < tree@.len(),
            candidate matches Some(c) ==> c < tree@.len(),
            statement_of(*tree, i as int, row, row) == (match statement_of(
                *tree,
                current as int,
                row,
                first,
            ) {
                Some(n) => Some(n),
                None => match candidate {
                    Some(c) => Some(c as int),
                    None => None,
                },
            }),
        decreases current,
    {
        if is_end(tree, current, first) {
            return candidate;
        }
        match unit(tree, current, row) {
            Some(found) => {
                return Some(found);
            },
            None => {},
        }
        let node = tree.node(current);
        if !same_text(&node.kind, "block") && !is_block_kind(&node.kind) && !is_clause_kind(
            &node.kind,
        ) && !same_text(&node.kind, "if_statement") && node.start_position.row
            != node.end_position.row {
            candidate = Some(current);
            first = node.start_position.row;
        } else if same_text(&node.kind, "}") {
            if let Some(p) = node.parent {
                if is_brace_kind(&tree.node(p).kind) {
                    first = tree.node(p).start_position.row;
                }
            }
        }
        match node.parent {
            Some(p) => {
                if is_root_kind(&tree.node(p).kind) {
                    return candidate;
                }
                current = p;
            },
            None => {
                return candidate;
            },
        }
    }
}

/// The offset at which a block is looked for: that of the cursor. There is none
/// if the selection is not empty.
pub fn block_offset(buffer: &BufferSnapshot, selection: &Range<Point>) -> (r: Option<usize>)
    requires
        buffer.wf(),
    ensures
        match block_place(*buffer, *selection) {
            Some(offset) => r matches Some(found) && found == offset,
            None => r is None,
        },
{
    let start: usize = buffer.point_to_offset(selection.start);
    if start != buffer.point_to_offset(selection.end) {
        None
    } else {
        Some(start)
    }
}

/// The top-level block at the cursor, or the selection if it is not empty.
///
/// `node` is the number of the node at which the parser's cursor ends on its way
/// from the root of the innermost layer to the byte at `block_offset`. It is not
/// looked at where no layer is.
pub fn block_range(buffer: &BufferSnapshot, selection: Range<Point>, node: Option<usize>) -> (r:
    Option<Range<Point>>)
    requires
        buffer.wf(),
        lands(*buffer, block_place(*buffer, selection), node),
    ensures
        r == block_at(*buffer, selection, node),
{
    let offset: usize = match block_offset(buffer, &selection) {
        Some(offset) => offset,
        None => {
            return Some(selection);
        },
    };
    let layer = match buffer.syntax_layer_at(offset) {
        Some(layer) => layer,
        None => {
            return None;
        },
    };
    let deepest: usize = match node {
        Some(n) => n,
        None => {
            return None;
        },
    };
    let tree = &layer.tree;
    let mut i: usize = deepest;
    loop
        invariant
            buffer.wf(),
            tree.wf(),
            i <= deepest < tree@.len(),
            top_level_of(*tree, deepest as int) == top_level_of(*tree, i as int),
            block_at(*buffer, selection, node) == (match top_level_of(*tree, deepest as int) {
                Some(k) => Some(node_range(*buffer, *tree, k)),
                None => None,
            }),
        decreases i,
    {
        let node = tree.node(i);
        match node.parent {
            Some(p) => {
                if is_root_kind(&tree.node(p).kind) {
                    let start = buffer.offset_to_point(node.start_byte);
                    let end = buffer.offset_to_point(node.end_byte);
                    return Some(Range { start, end });
                }
                i = p;
            },
            None => {
                return None;
            },
        }
    }
}

/// The offset at which the statement of a row is looked for.
fn row_cursor(buffer: &BufferSnapshot, row: u32, column: u32) -> (r: usize)
    requires
        buffer.wf(),
    ensures
        r == cursor_offset(*buffer, row, column),
{
    let line_len: u32 = buffer.line_len(row);
    let inside: u32 = if line_len == 0 {
        0
    } else if column < line_len {
        column
    } else {
        line_len - 1
    };
    buffer.point_to_offset(Point::new(row, inside))
}

/// The position whose statement is looked for.
fn executable(buffer: &BufferSnapshot, at: Point) -> (r: Option<Point>)
    requires
        buffer.wf(),
        at.row < u32::MAX,
    ensures
        r == executable_point(*buffer, at),
        r matches Some(p) ==> p.row < buffer.rows().len(),
{
    if !buffer.is_blank_or_comment(at.row) {
        return Some(at);
    }
    let max_row: u32 = buffer.max_row();
    let mut next_row: u32 = at.row + 1;
    while next_row <= max_row && buffer.is_blank_or_comment(next_row)
        invariant
            buffer.wf(),
            max_row == buffer.last_row(),
            next_executable_row(*buffer, at.row + 1) == next_executable_row(
                *buffer,
                next_row as int,
            ),
        decreases max_row + 1 - next_row,
    {
        next_row += 1;
    }
    if next_row <= max_row {
        Some(Point::new(next_row, 0))
    } else {
        None
    }
}

/// The offset at which the statement at the start of a range is looked for: that
/// of the cursor, or of the next row that is neither blank nor a comment. There
/// is none if there is no such row.
pub fn line_offset(buffer: &BufferSnapshot, range: &Range<Point>) -> (r: Option<usize>)
    requires
        buffer.wf(),
        range.start.row < u32::MAX,
    ensures
        match line_place(*buffer, *range) {
            Some(offset) => r matches Some(found) && found == offset,
            None => r is None,
        },
{
    match executable(buffer, range.start) {
        Some(p) => Some(row_cursor(buffer, p.row, p.column)),
        None => None,
    }
}

/// The smallest complete statement at the start of a range, from the start of
/// its first row on. Where the range ends does not matter.
/// - A simple statement on a row of its own, at the top level or in a suite, gives
///   that row.
/// - An expression over more than one row is given as a whole.
/// - Every row of the head of a block gives the block, and so does every row of
///   the head of one of its clauses.
/// - A row that is blank or a comment stands for the next row that is neither.
///
/// `node` is the number of the node at which the parser's cursor ends on its way
/// from the root of the innermost layer to the byte at `line_offset`. It is not
/// looked at where no layer is.
pub fn line_runnable_range(buffer: &BufferSnapshot, range: Range<Point>, node: Option<usize>) -> (r:
    Range<Point>)
    requires
        buffer.wf(),
        range.start.row < u32::MAX,
        lands(*buffer, line_place(*buffer, range), node),
    ensures
        r == runnable_line(*buffer, range, node),
        buffer.holds_point(r.end) || (r.end.row == range.start.row && range.start.row
            >= buffer.rows().len()),
{
    let at = match executable(buffer, range.start) {
        Some(p) => p,
        None => {
            let start = Point::new(range.start.row, 0);
            return Range { start, end: start };
        },
    };
    let row: u32 = at.row;
    let row_range = Range { start: Point::new(row, 0), end: Point::new(row, buffer.line_len(row)) };
    match (buffer.syntax_layer_at(row_cursor(buffer, row, at.column)), node) {
        (Some(layer), Some(n)) => match statement(&layer.tree, n, row) {
            Some(i) => node_range_from_line_start(buffer, &layer.tree, i),
            None => row_range,
        },
        _ => row_range,
    }
}

/// What runs for a line starts at the start of a row, so that the indentation in
/// front of the statement is kept, and does not depend on where the range ends:
/// neither does the offset at which the statement is looked for.
pub proof fn law_line_keeps_indentation(
    buffer: BufferSnapshot,
    range: Range<Point>,
    other: Point,
    node: Option<usize>,
)
    ensures
        runnable_line(buffer, range, node).start.column == 0,
        line_place(buffer, range) == line_place(buffer, Range { start: range.start, end: other }),
        runnable_line(buffer, range, node) == runnable_line(
            buffer,
            Range { start: range.start, end: other },
            node,
        ),
{
}

proof fn lemma_layer_below(buffer: BufferSnapshot, offset: int, n: int)
    requires
        buffer.wf(),
        0 <= n <= buffer.syntax_layers().len(),
    ensures
        buffer.layer_below(offset, n) matches Some(layer) ==> layer.tree.wf() && layer.fits(
            buffer.rows(),
        ),
    decreases n,
{
    if n > 0 && !buffer.syntax_layers()[n - 1].covers(offset) {
        lemma_layer_below(buffer, offset, n - 1);
    }
}

proof fn lemma_enclosing_bytes(lines: Seq<Seq<char>>, layer: SyntaxLayer, a: int, i: int)
    requires
        layer.tree.wf(),
        layer.fits(lines),
        0 <= i < layer.tree@.len(),
        layer.tree.encloses(a, i),
    ensures
        layer.tree@[a].start_byte <= layer.tree@[i].start_byte,
        layer.tree@[i].end_byte <= layer.tree@[a].end_byte,
    decreases i,
{
    if a != i {
        assert(node_fits(lines, layer.tree@, layer.tree@[i]));
        lemma_enclosing_bytes(lines, layer, a, layer.tree@[i].parent->0 as int);
    }
}

/// The two ends of a node are positions of the buffer, in order, and those of
/// its bytes.
proof fn lemma_node_in_buffer(buffer: BufferSnapshot, layer: SyntaxLayer, n: int)
    requires
        buffer.wf(),
        layer.fits(buffer.rows()),
        0 <= n < layer.tree@.len(),
    ensures
        ({
            let node = layer.tree@[n];
            let start = buffer.point_at(node.start_byte as int);
            let end = buffer.point_at(node.end_byte as int);
            &&& node.start_position == start
            &&& node.end_position == end
            &&& start.up_to(end)
            &&& end.up_to(buffer.end_point())
            &&& buffer.holds_point(start)
            &&& buffer.holds_point(end)
        }),
{
    let node = layer.tree@[n];
    assert(node_fits(buffer.rows(), layer.tree@, node));
    law_point_offset_point(buffer, node.start_position);
    law_point_offset_point(buffer, node.end_position);
    law_points_in_order(buffer, node.start_byte as int, node.end_byte as int);
}

proof fn lemma_statement_in_buffer(
    buffer: BufferSnapshot,
    row: u32,
    column: u32,
    node: Option<usize>,
)
    requires
        buffer.wf(),
        row < buffer.rows().len(),
        lands(buffer, Some(cursor_offset(buffer, row, column)), node),
    ensures
        ({
            let range = statement_at(buffer, row, column, node);
            &&& range.start.up_to(range.end)
            &&& range.end.up_to(buffer.end_point())
            &&& buffer.holds_point(range.end)
        }),
{
    let offset = cursor_offset(buffer, row, column);
    lemma_layer_below(buffer, offset, buffer.syntax_layers().len() as int);
    if let Some(layer) = buffer.layer_at(offset) {
        let i = node->0 as int;
        law_statement_encloses_cursor(layer.tree, i, row, row);
        if let Some(n) = statement_of(layer.tree, i, row, row) {
            lemma_node_in_buffer(buffer, layer, n);
        }
    }
}

/// What runs for a line is a range of the buffer: it does not end before it
/// starts, nor behind the end of the buffer.
pub proof fn law_line_stays_in_buffer(
    buffer: BufferSnapshot,
    range: Range<Point>,
    node: Option<usize>,
)
    requires
        buffer.wf(),
        buffer.holds_point(range.start),
        lands(buffer, line_place(buffer, range), node),
    ensures
        runnable_line(buffer, range, node).start.up_to(runnable_line(buffer, range, node).end),
        runnable_line(buffer, range, node).end.up_to(buffer.end_point()),
        buffer.holds_point(runnable_line(buffer, range, node).end),
{
    lemma_next_executable_row(buffer, range.start.row + 1);
    if let Some(p) = executable_point(buffer, range.start) {
        lemma_statement_in_buffer(buffer, p.row, p.column, node);
    }
}

/// What runs for a line that is neither blank nor a comment holds the cursor's
/// row, wherever the cursor stands on the node at which the parser's cursor ends
/// or where no layer is.
pub proof fn law_line_holds_cursor_row(
    buffer: BufferSnapshot,
    range: Range<Point>,
    node: Option<usize>,
)
    requires
        buffer.wf(),
        buffer.holds_point(range.start),
        !buffer.row_blank_or_comment(range.start.row as int),
        lands(buffer, line_place(buffer, range), node),
        ({
            let offset = cursor_offset(buffer, range.start.row, range.start.column);
            buffer.layer_at(offset) matches Some(layer)
                ==> layer.tree@[node->0 as int].start_byte <= offset
                < layer.tree@[node->0 as int].end_byte
        }),
    ensures
        runnable_line(buffer, range, node).start.row <= range.start.row <= runnable_line(
            buffer,
            range,
            node,
        ).end.row,
{
    let row = range.start.row;
    let offset = cursor_offset(buffer, row, range.start.column);
    let len = buffer.row_len(row as int);
    let at = Point {
        row,
        column: (if len == 0 {
            0
        } else if range.start.column < len {
            range.start.column as int
        } else {
            len - 1
        }) as u32,
    };
    law_point_offset_point(buffer, at);
    lemma_layer_below(buffer, offset, buffer.syntax_layers().len() as int);
    if let Some(layer) = buffer.layer_at(offset) {
        let i = node->0 as int;
        law_statement_encloses_cursor(layer.tree, i, row, row);
        if let Some(n) = statement_of(layer.tree, i, row, row) {
            let found = layer.tree@[n];
            lemma_node_in_buffer(buffer, layer, n);
            lemma_enclosing_bytes(buffer.rows(), layer, n, i);
            law_points_in_order(buffer, found.start_byte as int, offset);
            law_points_in_order(buffer, offset, found.end_byte as int);
        }
    }
}

proof fn lemma_next_executable_row(buffer: BufferSnapshot, row: int)
    requires
        row <= buffer.rows().len(),
    ensures
        row <= next_executable_row(buffer, row) <= buffer.rows().len(),
        next_executable_row(buffer, row) < buffer.rows().len() ==> !buffer.row_blank_or_comment(
            next_executable_row(buffer, row),
        ),
        forall|k: int|
            row <= k < next_executable_row(buffer, row) ==> #[trigger] buffer.row_blank_or_comment(
                k,
            ),
    decreases buffer.rows().len() - row,
{
    if row < buffer.rows().len() && buffer.row_blank_or_comment(row) {
        lemma_next_executable_row(buffer, row + 1);
    }
}

/// A row that is blank or a comment runs what the next row that is neither
/// runs; where there is no such row, the range is empty.
pub proof fn law_blank_row_runs_next_statement(
    buffer: BufferSnapshot,
    range: Range<Point>,
    next: u32,
    node: Option<usize>,
)
    requires
        buffer.wf(),
        range.start.row < next,
        forall|k: int| range.start.row <= k < next ==> #[trigger] buffer.row_blank_or_comment(k),
    ensures
        next < buffer.rows().len() && !buffer.row_blank_or_comment(next as int) ==> {
            let start = Point { row: next, column: 0 };
            &&& line_place(buffer, range) == line_place(buffer, Range { start, end: start })
            &&& runnable_line(buffer, range, node) == runnable_line(
                buffer,
                Range { start, end: start },
                node,
            )
        },
        next >= buffer.rows().len() ==> {
            let start = Point { row: range.start.row, column: 0 };
            &&& line_place(buffer, range) is None
            &&& runnable_line(buffer, range, node) == (Range { start, end: start })
        },
{
    let row = range.start.row;
    assert(buffer.row_blank_or_comment(row as int));
    if row < buffer.rows().len() {
        lemma_next_executable_row(buffer, row + 1);
    }
    let found = next_executable_row(buffer, row + 1);
    if next < buffer.rows().len() && !buffer.row_blank_or_comment(next as int) {
        if found < next {
            assert(buffer.row_blank_or_comment(found));
        } else if found > next {
            assert(buffer.row_blank_or_comment(next as int));
        }
    } else if next >= buffer.rows().len() && found < buffer.rows().len() {
        assert(buffer.row_blank_or_comment(found));
    }
}

proof fn lemma_owner_encloses(tree: SyntaxTree, i: int)
    requires
        tree.wf(),
        0 <= i < tree@.len(),
    ensures
        owner_of(tree, i) matches Some(o) ==> 0 <= o < i && owner_kind(tree.kind_of(o))
            && tree.encloses(o, i),
    decreases i,
{
    if let Some(p) = parent_of(tree, i) {
        assert(tree.encloses(p, p));
        if !owner_kind(tree.kind_of(p)) {
            lemma_owner_encloses(tree, p);
        }
    }
}

proof fn lemma_outer_if_encloses(tree: SyntaxTree, i: int)
    requires
        tree.wf(),
        0 <= i < tree@.len(),
    ensures
        0 <= outer_if_of(tree, i) <= i,
        tree.encloses(outer_if_of(tree, i), i),
    decreases i,
{
    if let Some(p) = parent_of(tree, i) {
        if tree.kind_of(p) == "if_statement"@ {
            lemma_outer_if_encloses(tree, p);
        }
    }
}

/// What runs for a line is a node around the cursor: the node at the cursor or
/// an ancestor of it.
pub proof fn law_statement_encloses_cursor(tree: SyntaxTree, i: int, row: u32, first: u32)
    requires
        tree.wf(),
        0 <= i < tree@.len(),
    ensures
        statement_of(tree, i, row, first) matches Some(n) ==> 0 <= n <= i && tree.encloses(n, i),
    decreases i,
{
    lemma_owner_encloses(tree, i);
    lemma_outer_if_encloses(tree, i);
    if let Some(p) = parent_of(tree, i) {
        law_statement_encloses_cursor(tree, p, row, found_row(tree, i, first));
    }
}

/// A clause runs the block that owns it on every row of its head, and so does
/// that block on every row of its own: all these rows run the same. An `if`
/// statement that is itself the direct child of another one is left out, since
/// its head runs the outer one.
pub proof fn law_clause_runs_owner(tree: SyntaxTree, clause: int, owner: int, row: u32)
    requires
        tree.wf(),
        0 <= clause < tree@.len(),
        clause_kind(tree.kind_of(clause)),
        owner_of(tree, clause) == Some(owner),
        outer_if_of(tree, owner) == owner,
    ensures
        in_head(tree, clause, row) ==> statement_of(tree, clause, row, row) == Some(owner),
        in_head(tree, owner, row) ==> statement_of(tree, owner, row, row) == Some(owner),
{
    lemma_owner_encloses(tree, clause);
    lemma_kinds(tree.kind_of(clause));
    lemma_kinds(tree.kind_of(owner));
}

/// Every row of the head of a block runs the whole block, at whichever node of
/// the head the cursor stands. Left out are the nodes that are inside a unit of
/// their own or inside a suite.
pub proof fn law_head_runs_block(tree: SyntaxTree, block: int, i: int, row: u32, first: u32)
    requires
        tree.wf(),
        0 <= i < tree@.len(),
        tree.encloses(block, i),
        block_kind(tree.kind_of(block)) || (tree.kind_of(block) == "if_statement"@ && outer_if_of(
            tree,
            block,
        ) == block),
        in_head(tree, block, row),
        forall|k: int|
            block < k <= i && #[trigger] tree.encloses(k, i) ==> !suite_kind(tree.kind_of(k))
                && !root_kind(tree.kind_of(k)) && unit_of(tree, k, row) is None,
    ensures
        statement_of(tree, i, row, first) == Some(block),
    decreases i,
{
    lemma_kinds(tree.kind_of(block));
    if i != block {
        lemma_encloses_order(tree, block, i);
        assert(tree.encloses(i, i));
        let p = parent_of(tree, i)->0;
        lemma_encloses_order(tree, block, p);
        assert forall|k: int| block < k <= p && #[trigger] tree.encloses(
            k,
            p,
        ) implies !suite_kind(tree.kind_of(k)) && !root_kind(tree.kind_of(k)) && unit_of(
            tree,
            k,
            row,
        ) is None by {
            assert(tree.encloses(k, i));
        }
        if p != block {
            assert(tree.encloses(p, p));
            assert(tree.encloses(p, i));
        }
        law_head_runs_block(tree, block, p, row, found_row(tree, i, first));
    }
}

/// A simple statement on a row of its own in a suite runs that row and nothing
/// around it: if no node from `i` up to the suite goes over more than one row,
/// has a unit or is the suite's closing brace, no node is found.
pub proof fn law_row_in_suite_runs_alone(tree: SyntaxTree, suite: int, i: int, row: u32)
    requires
        tree.wf(),
        0 <= i < tree@.len(),
        tree.encloses(suite, i),
        suite_kind(tree.kind_of(suite)),
        tree.start_row(suite) != row || (tree.kind_of(suite) == "block"@ && !hangs(tree, suite)),
        forall|k: int|
            suite < k <= i && #[trigger] tree.encloses(k, i) ==> !spans_rows(tree, k) && unit_of(
                tree,
                k,
                row,
            ) is None && tree.kind_of(k) != "}"@,
    ensures
        statement_of(tree, i, row, row) is None,
    decreases i,
{
    if i != suite {
        lemma_encloses_order(tree, suite, i);
        assert(tree.encloses(i, i));
        let p = parent_of(tree, i)->0;
        lemma_encloses_order(tree, suite, p);
        assert forall|k: int| suite < k <= p && #[trigger] tree.encloses(
            k,
            p,
        ) implies !spans_rows(tree, k) && unit_of(tree, k, row) is None && tree.kind_of(k)
            != "}"@ by {
            assert(tree.encloses(k, i));
        }
        law_row_in_suite_runs_alone(tree, suite, p, row);
    }
}

proof fn lemma_encloses_order(tree: SyntaxTree, a: int, i: int)
    requires
        tree.encloses(a, i),
    ensures
        a <= i,
        0 <= i ==> 0 <= a,
    decreases i,
{
    if a != i {
        lemma_encloses_order(tree, a, tree@[i].parent->0 as int);
    }
}

/// The kinds of a suite, a clause, a definition, an `if` statement, another
/// block statement and a root are all different, and a block that can have
/// clauses is one of the two kinds of statement.
proof fn lemma_kinds(kind: Seq<char>)
    ensures
        clause_kind(kind) ==> !suite_kind(kind) && kind != "if_statement"@ && !definition_kind(kind)
            && !root_kind(kind),
        definition_kind(kind) ==> !suite_kind(kind) && !root_kind(kind),
        block_kind(kind) ==> !suite_kind(kind) && kind != "if_statement"@ && !definition_kind(kind)
            && !clause_kind(kind) && !root_kind(kind),
        kind == "if_statement"@ ==> !suite_kind(kind) && !definition_kind(kind) && !clause_kind(kind)
            && !root_kind(kind),
        owner_kind(kind) && kind != "if_statement"@ ==> block_kind(kind),
{
    reveal_strlit("block");
    reveal_strlit("statement_block");
    reveal_strlit("compound_statement");
    reveal_strlit("if_statement");
    reveal_strlit("else_clause");
    reveal_strlit("elif_clause");
    reveal_strlit("except_clause");
    reveal_strlit("finally_clause");
    reveal_strlit("case_clause");
    reveal_strlit("for_statement");
    reveal_strlit("while_statement");
    reveal_strlit("with_statement");
    reveal_strlit("try_statement");
    reveal_strlit("match_statement");
    reveal_strlit("async_for_statement");
    reveal_strlit("async_with_statement");
    reveal_strlit("function_definition");
    reveal_strlit("class_definition");
    reveal_strlit("async_function_definition");
    reveal_strlit("module");
    reveal_strlit("program");
    reveal_strlit("source_file");
    reveal_strlit("chunk");
    reveal_strlit("translation_unit");
    // Kinds of the same length that are told apart here differ in their first
    // letter.
    assert("block"@.len() == 5 && "block"@[0] == 'b');
    assert("statement_block"@.len() == 15 && "statement_block"@[0] == 's');
    assert("compound_statement"@.len() == 18 && "compound_statement"@[0] == 'c');
    assert("if_statement"@.len() == 12 && "if_statement"@[0] == 'i');
    assert("else_clause"@.len() == 11 && "else_clause"@[0] == 'e');
    assert("elif_clause"@.len() == 11 && "elif_clause"@[0] == 'e');
    assert("except_clause"@.len() == 13 && "except_clause"@[0] == 'e');
    assert("finally_clause"@.len() == 14 && "finally_clause"@[0] == 'f');
    assert("case_clause"@.len() == 11 && "case_clause"@[0] == 'c');
    assert("for_statement"@.len() == 13 && "for_statement"@[0] == 'f');
    assert("while_statement"@.len() == 15 && "while_statement"@[0] == 'w');
    assert("with_statement"@.len() == 14 && "with_statement"@[0] == 'w');
    assert("try_statement"@.len() == 13 && "try_statement"@[0] == 't');
    assert("match_statement"@.len() == 15 && "match_statement"@[0] == 'm');
    assert("async_for_statement"@.len() == 19 && "async_for_statement"@[0] == 'a');
    assert("async_with_statement"@.len() == 20 && "async_with_statement"@[0] == 'a');
    assert("function_definition"@.len() == 19 && "function_definition"@[0] == 'f');
    assert("class_definition"@.len() == 16 && "class_definition"@[0] == 'c');
    assert("async_function_definition"@.len() == 25 && "async_function_definition"@[0] == 'a');
    assert("module"@.len() == 6 && "module"@[0] == 'm');
    assert("program"@.len() == 7 && "program"@[0] == 'p');
    assert("source_file"@.len() == 11 && "source_file"@[0] == 's');
    assert("chunk"@.len() == 5 && "chunk"@[0] == 'c');
    assert("translation_unit"@.len() == 16 && "translation_unit"@[0] == 't');
}

/// The block at the cursor stands at the top level and holds the cursor: it is
/// the node at the cursor or an ancestor of it, and its parent is a root node.
/// There is such a block wherever the root of the tree is a root node and the
/// cursor is in one of its descendants.
pub proof fn law_block_is_top_level(tree: SyntaxTree, i: int)
    requires
        tree.wf(),
        0 <= i < tree@.len(),
    ensures
        top_level_of(tree, i) matches Some(n) ==> 0 <= n <= i && tree.encloses(n, i) && below_root(
            tree,
            n,
        ),
        0 < i && root_kind(tree.kind_of(0)) ==> top_level_of(tree, i) is Some,
    decreases i,
{
    if !below_root(tree, i) {
        if let Some(p) = parent_of(tree, i) {
            law_block_is_top_level(tree, p);
        }
    }
}

/// The block at the cursor is a range of the buffer: it does not end before it
/// starts, nor behind the end of the buffer.
pub proof fn law_block_stays_in_buffer(
    buffer: BufferSnapshot,
    selection: Range<Point>,
    node: Option<usize>,
)
    requires
        buffer.wf(),
        block_place(buffer, selection) is Some,
        lands(buffer, block_place(buffer, selection), node),
    ensures
        block_at(buffer, selection, node) matches Some(range) ==> range.start.up_to(range.end)
            && range.end.up_to(buffer.end_point()) && buffer.holds_point(range.start)
            && buffer.holds_point(range.end),
{
    let offset = buffer.offset_of(selection.start);
    lemma_layer_below(buffer, offset, buffer.syntax_layers().len() as int);
    if let Some(layer) = buffer.layer_at(offset) {
        law_block_is_top_level(layer.tree, node->0 as int);
        if let Some(n) = top_level_of(layer.tree, node->0 as int) {
            lemma_node_in_buffer(buffer, layer, n);
        }
    }
}

/// Whether a kind is a suite: `block`, or the kinds in braces.
pub open spec fn is_suite(kind: Seq<char>) -> bool {
    kind == "block"@ || kind == "statement_block"@ || kind == "compound_statement"@
}

/// Whether a kind is the root of a file.
pub open spec fn is_root(kind: Seq<char>) -> bool {
    kind == "module"@ || kind == "program"@ || kind == "source_file"@ || kind == "chunk"@ || kind
        == "translation_unit"@
}

/// Whether a kind is a definition with a header and a body.
pub open spec fn is_definition(kind: Seq<char>) -> bool {
    kind == "function_definition"@ || kind == "class_definition"@ || kind
        == "async_function_definition"@
}

/// Whether a kind is a block statement other than `if`.
pub open spec fn is_block_statement(kind: Seq<char>) -> bool {
    kind == "for_statement"@ || kind == "while_statement"@ || kind == "with_statement"@ || kind
        == "try_statement"@ || kind == "match_statement"@ || kind == "async_for_statement"@ || kind
        == "async_with_statement"@
}

/// Whether a kind is a clause of a block statement.
pub open spec fn is_clause(kind: Seq<char>) -> bool {
    kind == "else_clause"@ || kind == "elif_clause"@ || kind == "except_clause"@ || kind
        == "finally_clause"@ || kind == "case_clause"@
}

/// Whether a kind is a block statement that can have clauses.
pub open spec fn has_clauses(kind: Seq<char>) -> bool {
    kind == "if_statement"@ || kind == "for_statement"@ || kind == "while_statement"@ || kind
        == "try_statement"@ || kind == "match_statement"@
}

/// Whether `b` is the first child of node `i` that is a suite.
pub open spec fn is_first_suite(tree: SyntaxTree, i: int, b: int) -> bool {
    &&& tree.is_child(i, b)
    &&& is_suite(tree.kind_of(b))
    &&& forall|j: int| #[trigger] tree.is_child(i, j) && is_suite(tree.kind_of(j)) ==> b <= j
}

/// Whether `row` belongs to the head of the block or the clause `i`: it is the row
/// on which `i` starts, or one between that and the first suite, or the row on
/// which the suite starts if another child in front of it ends there. Where such a
/// suite is a `block`, and the head starts further up or is that of a clause, the
/// rows of the suite belong to the head too.
pub open spec fn is_head_row(tree: SyntaxTree, i: int, row: u32) -> bool {
    tree.start_row(i) == row || (tree.start_row(i) < row && exists|b: int|
        #[trigger] is_first_suite(tree, i, b) && (row < tree.start_row(b) || (row <= (
        if tree.kind_of(b) == "block"@ && (tree.start_row(i) < tree.start_row(b) || is_clause(
            tree.kind_of(i),
        )) {
            tree.end_row(b)
        } else {
            tree.start_row(b)
        }) && tree.start_row(b) <= row && exists|j: int| #[trigger]
            tree.is_child(i, j) && j < b && tree.end_row(j) == tree.start_row(b))))
}

/// Whether node `k` has nothing to say about the cursor's row: it is of no special
/// kind, or it is a block or a clause whose head and suites lie above the row, or
/// a definition whose body starts at or above the row.
pub open spec fn is_idle(tree: SyntaxTree, k: int, row: u32) -> bool {
    let kind = tree.kind_of(k);
    if is_suite(kind) || is_root(kind) {
        false
    } else if is_block_statement(kind) || is_clause(kind) || kind == "if_statement"@ {
        &&& tree.start_row(k) != row
        &&& forall|j: int| #[trigger]
            tree.is_child(k, j) && is_suite(tree.kind_of(j)) ==> tree.start_row(j) < row
                && tree.end_row(j) < row
    } else if is_definition(kind) {
        &&& exists|j: int| #[trigger] tree.is_child(k, j) && tree@[j].is_body
        &&& forall|j: int| #[trigger]
            tree.is_child(k, j) && tree@[j].is_body ==> tree.start_row(j) <= row
    } else {
        true
    }
}

/// Whether node `k` goes over more than one row and is no block, clause or `if`
/// statement.
pub open spec fn goes_over(tree: SyntaxTree, k: int) -> bool {
    let kind = tree.kind_of(k);
    tree.start_row(k) != tree.end_row(k) && kind != "block"@ && kind != "if_statement"@
        && !is_block_statement(kind) && !is_clause(kind)
}

proof fn lemma_suite_from(tree: SyntaxTree, i: int, j: int)
    requires
        0 <= i < j,
    ensures
        match suite_from(tree, i, j) {
            Some(b) => j <= b < tree@.len() && tree.is_child(i, b) && is_suite(tree.kind_of(b)) && (
            forall|k: int|
                j <= k < b && #[trigger] tree.is_child(i, k) ==> !is_suite(tree.kind_of(k))),
            None => forall|k: int|
                j <= k && #[trigger] tree.is_child(i, k) ==> !is_suite(tree.kind_of(k)),
        },
    decreases tree@.len() - j,
{
    if j < tree@.len() && !(tree.is_child(i, j) && suite_kind(tree.kind_of(j))) {
        lemma_suite_from(tree, i, j + 1);
    }
}

proof fn lemma_body_from(tree: SyntaxTree, i: int, j: int)
    requires
        0 <= i < j,
    ensures
        match tree.body_from(i, j) {
            Some(b) => j <= b < tree@.len() && tree.is_child(i, b) && tree@[b].is_body,
            None => forall|k: int|
                j <= k && #[trigger] tree.is_child(i, k) ==> !tree@[k].is_body,
        },
    decreases tree@.len() - j,
{
    if j < tree@.len() && !(tree.is_child(i, j) && tree@[j].is_body) {
        lemma_body_from(tree, i, j + 1);
    }
}

proof fn lemma_head_row(tree: SyntaxTree, i: int, row: u32)
    requires
        tree.wf(),
        0 <= i < tree@.len(),
        is_head_row(tree, i, row),
    ensures
        in_head(tree, i, row),
{
    if tree.start_row(i) != row {
        let b = choose|b: int|
            #[trigger] is_first_suite(tree, i, b) && (row < tree.start_row(b) || (row <= (
            if tree.kind_of(b) == "block"@ && (tree.start_row(i) < tree.start_row(b) || is_clause(
                tree.kind_of(i),
            )) {
                tree.end_row(b)
            } else {
                tree.start_row(b)
            }) && tree.start_row(b) <= row && exists|j: int| #[trigger]
                tree.is_child(i, j) && j < b && tree.end_row(j) == tree.start_row(b)));
        lemma_suite_from(tree, i, i + 1);
        assert(tree.is_child(i, b));
        assert(i < b);
        let found = suite_of(tree, i)->0;
        assert(suite_of(tree, i) is Some);
        assert(tree.is_child(i, found));
        assert(found == b);
        if row >= tree.start_row(b) {
            let j = choose|j: int| #[trigger]
                tree.is_child(i, j) && j < b && tree.end_row(j) == tree.start_row(b);
            assert(tree@[j].parent == tree@[b].parent);
            assert(shares_row(tree, b));
        }
    }
}

proof fn lemma_idle(tree: SyntaxTree, k: int, row: u32)
    requires
        tree.wf(),
        0 <= k < tree@.len(),
        is_idle(tree, k, row),
    ensures
        !suite_kind(tree.kind_of(k)),
        !root_kind(tree.kind_of(k)),
        unit_of(tree, k, row) is None,
        spans_rows(tree, k) == goes_over(tree, k),
{
    let kind = tree.kind_of(k);
    lemma_kinds(kind);
    lemma_suite_from(tree, k, k + 1);
    lemma_body_from(tree, k, k + 1);
    if is_block_statement(kind) || is_clause(kind) || kind == "if_statement"@ {
        if let Some(b) = suite_of(tree, k) {
            assert(tree.is_child(k, b));
        }
        assert(!in_head(tree, k, row));
    } else if is_definition(kind) {
        let j = choose|j: int| #[trigger] tree.is_child(k, j) && tree@[j].is_body;
        assert(k < j);
        let b = tree.body_of(k)->0;
        assert(tree.body_of(k) is Some);
        assert(tree.is_child(k, b));
    }
}

/// What node `d` decides whatever was found further inside, every node below it
/// decides that has only idle nodes on the way to it.
proof fn lemma_reaches(tree: SyntaxTree, d: int, found: int, i: int, row: u32, first: u32)
    requires
        tree.wf(),
        0 <= i < tree@.len(),
        tree.encloses(d, i),
        !root_kind(tree.kind_of(d)),
        forall|f: u32| #[trigger] statement_of(tree, d, row, f) == Some(found),
        forall|k: int| d < k <= i && #[trigger] tree.encloses(k, i) ==> is_idle(tree, k, row),
    ensures
        statement_of(tree, i, row, first) == Some(found),
    decreases i,
{
    if i != d {
        lemma_encloses_order(tree, d, i);
        assert(tree.encloses(i, i));
        let p = parent_of(tree, i)->0;
        lemma_encloses_order(tree, d, p);
        assert forall|k: int| d < k <= p && #[trigger] tree.encloses(k, p) implies is_idle(
            tree,
            k,
            row,
        ) by {
            assert(tree.encloses(k, i));
        }
        lemma_idle(tree, i, row);
        if p != d {
            assert(tree.encloses(p, p));
            assert(tree.encloses(p, i));
            lemma_idle(tree, p, row);
        }
        lemma_reaches(tree, d, found, p, row, found_row(tree, i, first));
    }
}

/// A function or class definition runs as a whole, and alone, on every row above
/// its body, at whichever node of its header the cursor stands: never what is
/// around the definition.
pub proof fn law_header_runs_definition(tree: SyntaxTree, d: int, i: int, row: u32, first: u32)
    requires
        tree.wf(),
        0 <= i < tree@.len(),
        tree.encloses(d, i),
        is_definition(tree.kind_of(d)),
        forall|j: int| #[trigger] tree.is_child(d, j) && tree@[j].is_body ==> row < tree.start_row(j),
        forall|k: int| d < k <= i && #[trigger] tree.encloses(k, i) ==> is_idle(tree, k, row),
    ensures
        statement_of(tree, i, row, first) == Some(d),
{
    lemma_encloses_order(tree, d, i);
    lemma_kinds(tree.kind_of(d));
    lemma_body_from(tree, d, d + 1);
    if let Some(b) = tree.body_of(d) {
        assert(tree.is_child(d, b));
    }
    assert forall|f: u32| #[trigger] statement_of(tree, d, row, f) == Some(d) by {
        assert(unit_of(tree, d, row) == Some(d));
    }
    lemma_reaches(tree, d, d, i, row, first);
}

/// A block statement other than `if` runs as a whole, and alone, on every row of
/// its head, at whichever node of the head the cursor stands.
pub proof fn law_head_row_runs_block(tree: SyntaxTree, d: int, i: int, row: u32, first: u32)
    requires
        tree.wf(),
        0 <= i < tree@.len(),
        tree.encloses(d, i),
        is_block_statement(tree.kind_of(d)),
        is_head_row(tree, d, row),
        forall|k: int| d < k <= i && #[trigger] tree.encloses(k, i) ==> is_idle(tree, k, row),
    ensures
        statement_of(tree, i, row, first) == Some(d),
{
    lemma_encloses_order(tree, d, i);
    lemma_kinds(tree.kind_of(d));
    lemma_head_row(tree, d, row);
    assert forall|f: u32| #[trigger] statement_of(tree, d, row, f) == Some(d) by {
        assert(unit_of(tree, d, row) == Some(d));
    }
    lemma_reaches(tree, d, d, i, row, first);
}

/// An `if` statement runs, on every row of its head, with the `if` statements
/// that it directly stands in, up to the outermost of them and no further.
pub proof fn law_head_row_runs_outer_if(
    tree: SyntaxTree,
    outer: int,
    d: int,
    i: int,
    row: u32,
    first: u32,
)
    requires
        tree.wf(),
        0 <= i < tree@.len(),
        tree.encloses(outer, d),
        tree.encloses(d, i),
        forall|k: int|
            outer <= k <= d && #[trigger] tree.encloses(k, d) ==> tree.kind_of(k)
                == "if_statement"@,
        parent_of(tree, outer) matches Some(p) ==> tree.kind_of(p) != "if_statement"@,
        is_head_row(tree, d, row),
        forall|k: int| d < k <= i && #[trigger] tree.encloses(k, i) ==> is_idle(tree, k, row),
    ensures
        statement_of(tree, i, row, first) == Some(outer),
{
    lemma_encloses_order(tree, d, i);
    lemma_encloses_order(tree, outer, d);
    assert(tree.encloses(d, d));
    lemma_kinds(tree.kind_of(d));
    lemma_head_row(tree, d, row);
    lemma_outer_if_is(tree, outer, d);
    assert forall|f: u32| #[trigger] statement_of(tree, d, row, f) == Some(outer) by {
        assert(unit_of(tree, d, row) == Some(outer));
    }
    lemma_reaches(tree, d, outer, i, row, first);
}

proof fn lemma_outer_if_is(tree: SyntaxTree, outer: int, d: int)
    requires
        tree.wf(),
        0 <= d < tree@.len(),
        tree.encloses(outer, d),
        forall|k: int|
            outer <= k <= d && #[trigger] tree.encloses(k, d) ==> tree.kind_of(k)
                == "if_statement"@,
        parent_of(tree, outer) matches Some(p) ==> tree.kind_of(p) != "if_statement"@,
    ensures
        outer_if_of(tree, d) == outer,
    decreases d,
{
    if d != outer {
        let p = parent_of(tree, d)->0;
        assert(tree.encloses(p, p));
        lemma_encloses_order(tree, outer, p);
        assert(tree.encloses(p, d));
        assert forall|k: int| outer <= k <= p && #[trigger] tree.encloses(k, p) implies tree.kind_of(
            k,
        ) == "if_statement"@ by {
            assert(tree.encloses(k, d));
        }
        lemma_outer_if_is(tree, outer, p);
    }
}

/// A clause runs, on every row of its head, the nearest block around it that can
/// have clauses, at whichever node of the head the cursor stands.
pub proof fn law_head_row_of_clause_runs_nearest_owner(
    tree: SyntaxTree,
    owner: int,
    clause: int,
    i: int,
    row: u32,
    first: u32,
)
    requires
        tree.wf(),
        0 <= i < tree@.len(),
        tree.encloses(owner, clause),
        owner != clause,
        tree.encloses(clause, i),
        is_clause(tree.kind_of(clause)),
        has_clauses(tree.kind_of(owner)),
        forall|k: int|
            owner < k < clause && #[trigger] tree.encloses(k, clause) ==> !has_clauses(
                tree.kind_of(k),
            ),
        is_head_row(tree, clause, row),
        forall|k: int| clause < k <= i && #[trigger] tree.encloses(k, i) ==> is_idle(tree, k, row),
    ensures
        statement_of(tree, i, row, first) == Some(owner),
        owner_of(tree, clause) == Some(owner),
{
    lemma_encloses_order(tree, clause, i);
    lemma_kinds(tree.kind_of(clause));
    lemma_head_row(tree, clause, row);
    lemma_owner_is(tree, owner, clause);
    assert forall|f: u32| #[trigger] statement_of(tree, clause, row, f) == Some(owner) by {
        assert(unit_of(tree, clause, row) == Some(owner));
    }
    lemma_reaches(tree, clause, owner, i, row, first);
}

proof fn lemma_owner_is(tree: SyntaxTree, owner: int, i: int)
    requires
        tree.wf(),
        0 <= i < tree@.len(),
        tree.encloses(owner, i),
        owner != i,
        has_clauses(tree.kind_of(owner)),
        forall|k: int|
            owner < k < i && #[trigger] tree.encloses(k, i) ==> !has_clauses(tree.kind_of(k)),
    ensures
        owner_of(tree, i) == Some(owner),
    decreases i,
{
    let p = parent_of(tree, i)->0;
    lemma_encloses_order(tree, owner, p);
    if p != owner {
        assert(tree.encloses(p, p));
        assert(tree.encloses(p, i));
        assert forall|k: int| owner < k < p && #[trigger] tree.encloses(k, p) implies !has_clauses(
            tree.kind_of(k),
        ) by {
            assert(tree.encloses(k, i));
        }
        lemma_owner_is(tree, owner, p);
    }
}

/// Whether the `block` with the number `s` can stand without what is in front of it
/// on its first row: nothing of its parent is there, or all of its parent's head
/// is and the parent is no clause.
pub open spec fn stands_alone(tree: SyntaxTree, s: int) -> bool {
    match parent_of(tree, s) {
        Some(p) => {
            ||| tree.start_row(p) >= tree.start_row(s) && !is_clause(tree.kind_of(p))
            ||| forall|j: int| #[trigger]
                tree.is_child(p, j) && j < s ==> tree.end_row(j) != tree.start_row(s)
        },
        None => true,
    }
}

/// Whether the search for a statement goes no further than node `top`, given that
/// it came from node `i`: `top` has no parent, or a root, or a `block` that can
/// stand without its head, or a suite that starts on a row on which neither the
/// cursor is nor a node from `i` to `top` starts.
pub open spec fn is_last_stop(tree: SyntaxTree, top: int, i: int, row: u32) -> bool {
    match parent_of(tree, top) {
        None => true,
        Some(s) => {
            ||| is_root(tree.kind_of(s))
            ||| tree.kind_of(s) == "block"@ && stands_alone(tree, s)
            ||| is_suite(tree.kind_of(s)) && tree.start_row(s) != row && tree.kind_of(top) != "}"@
                && (forall|k: int|
                top <= k <= i && #[trigger] tree.encloses(k, i) ==> tree.start_row(k)
                    != tree.start_row(s))
        },
    }
}

/// Where only idle nodes stand between the cursor and the suite or the top level
/// around it, the outermost of them that goes over more than one row runs, and
/// nothing outside of it: a multi-row expression as a whole. If none does, no node
/// is found, and the row runs alone.
pub proof fn law_expression_runs_whole(
    tree: SyntaxTree,
    top: int,
    found: int,
    i: int,
    row: u32,
)
    requires
        tree.wf(),
        0 <= i < tree@.len(),
        tree.encloses(top, i),
        is_last_stop(tree, top, i, row),
        forall|k: int| top <= k <= i && #[trigger] tree.encloses(k, i) ==> is_idle(tree, k, row),
    ensures
        top <= found && tree.encloses(found, i) && goes_over(tree, found) && (forall|k: int|
            top <= k < found && #[trigger] tree.encloses(k, i) ==> !goes_over(tree, k))
            ==> statement_of(tree, i, row, row) == Some(found),
        (forall|k: int|
            top <= k <= i && #[trigger] tree.encloses(k, i) ==> !goes_over(tree, k))
            ==> statement_of(tree, i, row, row) is None,
{
    lemma_climb(tree, top, found, i, row, row);
}

/// The closing brace of a suite runs like the suite: the outermost node that goes
/// over more than one row, from the suite to the next one around it or to the top
/// level.
pub proof fn law_closing_brace_runs_suite(
    tree: SyntaxTree,
    top: int,
    found: int,
    suite: int,
    i: int,
    row: u32,
)
    requires
        tree.wf(),
        0 <= i < tree@.len(),
        tree.kind_of(i) == "}"@,
        tree.start_row(i) == tree.end_row(i),
        parent_of(tree, i) == Some(suite),
        tree.kind_of(suite) == "statement_block"@ || tree.kind_of(suite) == "compound_statement"@,
        tree.start_row(suite) != tree.end_row(suite),
        0 <= top < suite,
        tree.encloses(top, suite),
        is_last_stop(tree, top, suite, tree.start_row(suite)),
        forall|k: int|
            top <= k < suite && #[trigger] tree.encloses(k, suite) ==> is_idle(tree, k, row),
        top <= found <= suite,
        tree.encloses(found, suite),
        goes_over(tree, found),
        forall|k: int|
            top <= k < found && #[trigger] tree.encloses(k, suite) ==> !goes_over(tree, k),
    ensures
        statement_of(tree, i, row, row) == Some(found),
{
    let start = tree.start_row(suite);
    lemma_brace_is_plain();
    lemma_suite_has_no_unit(tree, suite, row);
    lemma_kinds(tree.kind_of(suite));
    assert(statement_of(tree, i, row, row) == statement_of(tree, suite, row, start));
    let p = parent_of(tree, suite)->0;
    lemma_encloses_order(tree, top, p);
    assert(tree.encloses(p, p));
    assert(tree.encloses(p, suite));
    lemma_idle(tree, p, row);
    assert forall|k: int| top <= k <= p && #[trigger] tree.encloses(k, p) implies is_idle(
        tree,
        k,
        row,
    ) by {
        assert(tree.encloses(k, suite));
    }
    lemma_last_stop_from(tree, top, suite, p, row, start);
    lemma_climb_from(tree, top, found, p, row, start);
    lemma_not_a_brace(tree.kind_of(suite));
    assert(spans_rows(tree, suite));
    if found == suite {
        assert forall|k: int| top <= k <= p && #[trigger] tree.encloses(
            k,
            p,
        ) implies !goes_over(tree, k) by {
            assert(tree.encloses(k, suite));
        }
    } else {
        assert(tree.encloses(found, p));
        lemma_encloses_order(tree, found, p);
        assert forall|k: int| top <= k < found && #[trigger] tree.encloses(
            k,
            p,
        ) implies !goes_over(tree, k) by {
            assert(tree.encloses(k, suite));
        }
    }
}

/// A closing brace has no special kind.
proof fn lemma_brace_is_plain()
    ensures
        !suite_kind("}"@),
        !root_kind("}"@),
        !clause_kind("}"@),
        !block_kind("}"@),
        !definition_kind("}"@),
        "}"@ != "if_statement"@,
{
    reveal_strlit("}");
    assert("}"@.len() == 1);
    lemma_kinds("}"@);
    reveal_strlit("block");
    reveal_strlit("statement_block");
    reveal_strlit("compound_statement");
    reveal_strlit("if_statement");
    reveal_strlit("else_clause");
    reveal_strlit("elif_clause");
    reveal_strlit("except_clause");
    reveal_strlit("finally_clause");
    reveal_strlit("case_clause");
    reveal_strlit("for_statement");
    reveal_strlit("while_statement");
    reveal_strlit("with_statement");
    reveal_strlit("try_statement");
    reveal_strlit("match_statement");
    reveal_strlit("async_for_statement");
    reveal_strlit("async_with_statement");
    reveal_strlit("function_definition");
    reveal_strlit("class_definition");
    reveal_strlit("async_function_definition");
    reveal_strlit("module");
    reveal_strlit("program");
    reveal_strlit("source_file");
    reveal_strlit("chunk");
    reveal_strlit("translation_unit");
    assert("block"@.len() > 1 && "statement_block"@.len() > 1 && "compound_statement"@.len() > 1);
    assert("if_statement"@.len() > 1 && "else_clause"@.len() > 1 && "elif_clause"@.len() > 1);
    assert("except_clause"@.len() > 1 && "finally_clause"@.len() > 1 && "case_clause"@.len() > 1);
    assert("for_statement"@.len() > 1 && "while_statement"@.len() > 1 && "with_statement"@.len()
        > 1);
    assert("try_statement"@.len() > 1 && "match_statement"@.len() > 1);
    assert("async_for_statement"@.len() > 1 && "async_with_statement"@.len() > 1);
    assert("function_definition"@.len() > 1 && "class_definition"@.len() > 1);
    assert("async_function_definition"@.len() > 1 && "module"@.len() > 1 && "program"@.len() > 1);
    assert("source_file"@.len() > 1 && "chunk"@.len() > 1 && "translation_unit"@.len() > 1);
}

proof fn lemma_suite_has_no_unit(tree: SyntaxTree, s: int, row: u32)
    requires
        suite_kind(tree.kind_of(s)),
    ensures
        unit_of(tree, s, row) is None,
        !root_kind(tree.kind_of(s)),
{
    lemma_kinds(tree.kind_of(s));
    lemma_not_a_brace(tree.kind_of(s));
    lemma_root_is_no_block(tree.kind_of(s));
}

proof fn lemma_root_is_no_block(kind: Seq<char>)
    ensures
        root_kind(kind) ==> kind != "block"@,
{
    reveal_strlit("block");
    reveal_strlit("module");
    reveal_strlit("program");
    reveal_strlit("source_file");
    reveal_strlit("chunk");
    reveal_strlit("translation_unit");
    assert("block"@.len() == 5 && "block"@[0] == 'b');
    assert("module"@.len() == 6 && "program"@.len() == 7 && "source_file"@.len() == 11);
    assert("chunk"@.len() == 5 && "chunk"@[0] == 'c');
    assert("translation_unit"@.len() == 16);
}

/// Whether the way to the outside that comes from node `i` ends behind node `top`,
/// where what was found further inside starts on row `first`.
spec fn way_ends(tree: SyntaxTree, top: int, i: int, first: u32) -> bool {
    match parent_of(tree, top) {
        None => true,
        Some(s) => {
            ||| root_kind(tree.kind_of(s))
            ||| tree.kind_of(s) == "block"@ && !hangs(tree, s)
            ||| suite_kind(tree.kind_of(s)) && tree.start_row(s) != first && tree.kind_of(top)
                != "}"@ && (forall|k: int|
                top <= k <= i && #[trigger] tree.encloses(k, i) ==> tree.start_row(k)
                    != tree.start_row(s))
        },
    }
}

proof fn lemma_last_stop(tree: SyntaxTree, top: int, i: int, row: u32)
    requires
        tree.wf(),
        is_last_stop(tree, top, i, row),
    ensures
        way_ends(tree, top, i, row),
{
    if let Some(s) = parent_of(tree, top) {
        if tree.kind_of(s) == "block"@ && stands_alone(tree, s) {
            if let Some(p) = parent_of(tree, s) {
                if hangs(tree, s) {
                    let j = choose|j: int|
                        0 <= j < s && (#[trigger] tree@[j]).parent is Some && tree@[j].parent
                            == tree@[s].parent && tree.end_row(j) == tree.start_row(s);
                    assert(tree.is_child(p, j));
                }
            }
        }
    }
}

proof fn lemma_last_stop_from(
    tree: SyntaxTree,
    top: int,
    suite: int,
    p: int,
    row: u32,
    first: u32,
)
    requires
        tree.wf(),
        0 <= suite < tree@.len(),
        parent_of(tree, suite) == Some(p),
        tree.encloses(top, p),
        is_last_stop(tree, top, suite, first),
    ensures
        way_ends(tree, top, p, first),
{
    lemma_last_stop(tree, top, suite, first);
    if let Some(s) = parent_of(tree, top) {
        assert forall|k: int| top <= k <= p && #[trigger] tree.encloses(k, p) implies tree.encloses(
            k,
            suite,
        ) by {}
    }
}

proof fn lemma_climb(tree: SyntaxTree, top: int, found: int, i: int, row: u32, first: u32)
    requires
        tree.wf(),
        0 <= i < tree@.len(),
        tree.encloses(top, i),
        is_last_stop(tree, top, i, first),
        forall|k: int| top <= k <= i && #[trigger] tree.encloses(k, i) ==> is_idle(tree, k, row),
    ensures
        top <= found && tree.encloses(found, i) && goes_over(tree, found) && (forall|k: int|
            top <= k < found && #[trigger] tree.encloses(k, i) ==> !goes_over(tree, k))
            ==> statement_of(tree, i, row, first) == Some(found),
        (forall|k: int|
            top <= k <= i && #[trigger] tree.encloses(k, i) ==> !goes_over(tree, k))
            ==> statement_of(tree, i, row, first) is None,
{
    lemma_last_stop(tree, top, i, first);
    lemma_climb_from(tree, top, found, i, row, first);
}

proof fn lemma_climb_from(tree: SyntaxTree, top: int, found: int, i: int, row: u32, first: u32)
    requires
        tree.wf(),
        0 <= i < tree@.len(),
        tree.encloses(top, i),
        way_ends(tree, top, i, first),
        forall|k: int| top <= k <= i && #[trigger] tree.encloses(k, i) ==> is_idle(tree, k, row),
    ensures
        top <= found && tree.encloses(found, i) && goes_over(tree, found) && (forall|k: int|
            top <= k < found && #[trigger] tree.encloses(k, i) ==> !goes_over(tree, k))
            ==> statement_of(tree, i, row, first) == Some(found),
        (forall|k: int|
            top <= k <= i && #[trigger] tree.encloses(k, i) ==> !goes_over(tree, k))
            ==> statement_of(tree, i, row, first) is None,
    decreases i,
{
    lemma_encloses_order(tree, top, i);
    assert(tree.encloses(i, i));
    lemma_idle(tree, i, row);
    if tree.encloses(found, i) {
        lemma_encloses_order(tree, found, i);
    }
    let from = found_row(tree, i, first);
    if i == top {
        if let Some(s) = parent_of(tree, top) {
            if !root_kind(tree.kind_of(s)) {
                lemma_not_a_brace(tree.kind_of(s));
                assert(ends_at(tree, s, from));
                assert(statement_of(tree, s, row, from) is None);
            }
        }
    } else {
        let p = parent_of(tree, i)->0;
        lemma_encloses_order(tree, top, p);
        assert(tree.encloses(p, p));
        assert(tree.encloses(p, i));
        lemma_idle(tree, p, row);
        assert forall|k: int| top <= k <= p && #[trigger] tree.encloses(k, p) implies is_idle(
            tree,
            k,
            row,
        ) by {
            assert(tree.encloses(k, i));
        }
        assert(from == first || from == tree.start_row(i));
        if let Some(s) = parent_of(tree, top) {
            assert forall|k: int| top <= k <= p && #[trigger] tree.encloses(
                k,
                p,
            ) implies tree.encloses(k, i) by {}
        }
        assert(way_ends(tree, top, p, from));
        lemma_climb_from(tree, top, found, p, row, from);
        if top <= found && tree.encloses(found, i) && goes_over(tree, found) && (forall|k: int|
            top <= k < found && #[trigger] tree.encloses(k, i) ==> !goes_over(tree, k)) {
            assert forall|k: int| top <= k < found && #[trigger] tree.encloses(
                k,
                p,
            ) implies !goes_over(tree, k) by {
                assert(tree.encloses(k, i));
            }
            if found == i {
                assert forall|k: int| top <= k <= p && #[trigger] tree.encloses(
                    k,
                    p,
                ) implies !goes_over(tree, k) by {
                    assert(tree.encloses(k, i));
                }
            } else {
                assert(tree.encloses(found, p));
            }
        }
        if forall|k: int| top <= k <= i && #[trigger] tree.encloses(k, i) ==> !goes_over(tree, k) {
            assert forall|k: int| top <= k <= p && #[trigger] tree.encloses(
                k,
                p,
            ) implies !goes_over(tree, k) by {
                assert(tree.encloses(k, i));
            }
        }
    }
}

/// A cursor on the root of a file, on no node inside, runs the whole file if that
/// goes over more than one row, and its row otherwise.
pub proof fn law_root_runs_the_file(tree: SyntaxTree, row: u32)
    requires
        tree.wf(),
        is_root(tree.kind_of(0)),
    ensures
        tree.start_row(0) != tree.end_row(0) ==> statement_of(tree, 0, row, row) == Some(0int),
        tree.start_row(0) == tree.end_row(0) ==> statement_of(tree, 0, row, row) is None,
{
    let kind = tree.kind_of(0);
    lemma_kinds(kind);
    lemma_not_a_brace(kind);
    lemma_root_is_no_block(kind);
}

/// Where a suite starts behind a head that ends on the same row, a cursor in the
/// suite on that row, or in a node that starts there, runs what the head runs: a
/// suite in braces always, and a `block` if the row cannot run without the head,
/// because that starts further up or belongs to a clause. `found` is what the head
/// runs, and `first` the row on which what was found further inside starts.
pub proof fn law_suite_on_the_row_of_its_head(
    tree: SyntaxTree,
    d: int,
    suite: int,
    found: int,
    i: int,
    row: u32,
    first: u32,
)
    requires
        tree.wf(),
        0 <= i < tree@.len(),
        tree.encloses(suite, i),
        parent_of(tree, suite) == Some(d),
        is_suite(tree.kind_of(suite)),
        tree.kind_of(suite) == "block"@ ==> !stands_alone(tree, suite),
        is_head_row(tree, d, row),
        is_block_statement(tree.kind_of(d)) && found == d || (is_clause(tree.kind_of(d)) && owner_of(
            tree,
            d,
        ) == Some(found)) || (tree.kind_of(d) == "if_statement"@ && outer_if_of(tree, d) == found),
        first == tree.start_row(suite) || exists|k: int|
            suite < k <= i && #[trigger] tree.encloses(k, i) && goes_over(tree, k),
        forall|k: int|
            suite < k <= i && #[trigger] tree.encloses(k, i) ==> is_idle(tree, k, row) && (goes_over(
                tree,
                k,
            ) ==> tree.start_row(k) == tree.start_row(suite)) && tree.kind_of(k) != "}"@,
    ensures
        statement_of(tree, i, row, first) == Some(found),
    decreases i,
{
    lemma_kinds(tree.kind_of(d));
    lemma_head_row(tree, d, row);
    lemma_encloses_order(tree, suite, i);
    if i == suite {
        lemma_suite_has_no_unit(tree, suite, row);
        lemma_not_a_brace(tree.kind_of(suite));
        if tree.kind_of(suite) == "block"@ {
            let j = choose|j: int| #[trigger]
                tree.is_child(d, j) && j < suite && tree.end_row(j) == tree.start_row(suite);
            assert(tree@[j].parent == tree@[suite].parent);
            assert(shares_row(tree, suite));
            assert(hangs(tree, suite));
        }
        assert(unit_of(tree, d, row) == Some(found));
        assert(!ends_at(tree, suite, first));
        assert(statement_of(tree, d, row, found_row(tree, suite, first)) == Some(found));
    } else {
        assert(tree.encloses(i, i));
        let p = parent_of(tree, i)->0;
        let from = found_row(tree, i, first);
        lemma_encloses_order(tree, suite, p);
        lemma_idle(tree, i, row);
        assert forall|k: int| suite < k <= p && #[trigger] tree.encloses(k, p) implies is_idle(
            tree,
            k,
            row,
        ) && (goes_over(tree, k) ==> tree.start_row(k) == tree.start_row(suite)) && tree.kind_of(k)
            != "}"@ by {
            assert(tree.encloses(k, i));
        }
        if p != suite {
            assert(tree.encloses(p, p));
            assert(tree.encloses(p, i));
            lemma_idle(tree, p, row);
        } else {
            lemma_suite_has_no_unit(tree, p, row);
        }
        if from != tree.start_row(suite) {
            let k = choose|k: int|
                suite < k <= i && #[trigger] tree.encloses(k, i) && goes_over(tree, k);
            assert(k != i);
            assert(tree.encloses(k, p));
            lemma_encloses_order(tree, k, p);
        }
        law_suite_on_the_row_of_its_head(tree, d, suite, found, p, row, from);
    }
}

/// A root and a `block` are no suites in braces.
proof fn lemma_not_a_brace(kind: Seq<char>)
    ensures
        is_root(kind) || kind == "block"@ ==> !brace_kind(kind),
{
    reveal_strlit("block");
    reveal_strlit("statement_block");
    reveal_strlit("compound_statement");
    reveal_strlit("module");
    reveal_strlit("program");
    reveal_strlit("source_file");
    reveal_strlit("chunk");
    reveal_strlit("translation_unit");
    assert("block"@.len() == 5);
    assert("statement_block"@.len() == 15);
    assert("compound_statement"@.len() == 18);
    assert("module"@.len() == 6);
    assert("program"@.len() == 7);
    assert("source_file"@.len() == 11);
    assert("chunk"@.len() == 5);
    assert("translation_unit"@.len() == 16);
}

/// What runs for a line with code goes from the start of the first row of the node
/// that is found to the end of that node; if none is found, or no layer speaks for
/// the place, it is the row itself.
pub proof fn law_line_is_the_statement(
    buffer: BufferSnapshot,
    range: Range<Point>,
    layer: SyntaxLayer,
    n: usize,
)
    requires
        buffer.wf(),
        range.start.row < buffer.rows().len(),
        !buffer.row_blank_or_comment(range.start.row as int),
    ensures
        line_place(buffer, range) is Some,
        ({
            let row = range.start.row;
            let start = Point { row, column: 0 };
            let end = Point { row, column: text_len(buffer.rows()[row as int]) as u32 };
            &&& buffer.layer_at(line_place(buffer, range)->0) == Some(layer) && n
                < layer.tree@.len() ==> {
                let line = runnable_line(buffer, range, Some(n));
                match statement_of(layer.tree, n as int, row, row) {
                    Some(found) => {
                        &&& line.start == (Point {
                            row: layer.tree@[found].start_position.row,
                            column: 0,
                        })
                        &&& line.end == layer.tree@[found].end_position
                    },
                    None => line == (Range { start, end }),
                }
            }
            &&& buffer.layer_at(line_place(buffer, range)->0) is None ==> forall|
                node: Option<usize>,
            | #[trigger] runnable_line(buffer, range, node) == (Range { start, end })
        }),
{
    let row = range.start.row;
    let offset = cursor_offset(buffer, row, range.start.column);
    lemma_layer_below(buffer, offset, buffer.syntax_layers().len() as int);
    if buffer.layer_at(offset) == Some(layer) && n < layer.tree@.len() {
        law_statement_encloses_cursor(layer.tree, n as int, row, row);
        if let Some(found) = statement_of(layer.tree, n as int, row, row) {
            lemma_node_in_buffer(buffer, layer, found);
        }
    }
}

/// The block at the cursor is the innermost node around it that stands directly
/// below a root, from the start to the end of that node; without such a node there
/// is none. A selection stands for itself.
pub proof fn law_block_is_innermost_below_root(
    buffer: BufferSnapshot,
    selection: Range<Point>,
    layer: SyntaxLayer,
    found: int,
    n: usize,
)
    requires
        buffer.wf(),
    ensures
        buffer.offset_of(selection.start) != buffer.offset_of(selection.end) ==> forall|
            node: Option<usize>,
        | #[trigger] block_at(buffer, selection, node) == Some(selection),
        buffer.offset_of(selection.start) == buffer.offset_of(selection.end) && buffer.layer_at(
            buffer.offset_of(selection.start),
        ) is None ==> forall|node: Option<usize>|
            (#[trigger] block_at(buffer, selection, node)) is None,
        buffer.offset_of(selection.start) == buffer.offset_of(selection.end) && buffer.layer_at(
            buffer.offset_of(selection.start),
        ) == Some(layer) && n < layer.tree@.len() ==> {
            let tree = layer.tree;
            let block = block_at(buffer, selection, Some(n));
            &&& 0 <= found && tree.encloses(found, n as int) && (parent_of(
                tree,
                found,
            ) matches Some(p) && is_root(tree.kind_of(p))) && (forall|k: int|
                found < k <= n && #[trigger] tree.encloses(k, n as int) ==> (parent_of(
                    tree,
                    k,
                ) matches Some(p) ==> !is_root(tree.kind_of(p)))) ==> (block matches Some(b)
                && b.start == tree@[found].start_position && b.end == tree@[found].end_position)
            &&& (forall|k: int|
                0 <= k <= n && #[trigger] tree.encloses(k, n as int) ==> (parent_of(
                    tree,
                    k,
                ) matches Some(p) ==> !is_root(tree.kind_of(p)))) ==> block is None
        },
{
    let offset = buffer.offset_of(selection.start);
    lemma_layer_below(buffer, offset, buffer.syntax_layers().len() as int);
    if offset == buffer.offset_of(selection.end) && buffer.layer_at(offset) == Some(layer) && n
        < layer.tree@.len() {
        let tree = layer.tree;
        if 0 <= found && tree.encloses(found, n as int) && (parent_of(tree, found) matches Some(p)
            && is_root(tree.kind_of(p))) && (forall|k: int|
            found < k <= n && #[trigger] tree.encloses(k, n as int) ==> (parent_of(
                tree,
                k,
            ) matches Some(p) ==> !is_root(tree.kind_of(p)))) {
            lemma_encloses_order(tree, found, n as int);
            lemma_top_level_is(tree, found, n as int);
            lemma_node_in_buffer(buffer, layer, found);
        }
        if forall|k: int|
            0 <= k <= n && #[trigger] tree.encloses(k, n as int) ==> (parent_of(
                tree,
                k,
            ) matches Some(p) ==> !is_root(tree.kind_of(p))) {
            law_block_is_top_level(tree, n as int);
            if let Some(t) = top_level_of(tree, n as int) {
                assert(tree.encloses(t, n as int));
            }
        }
    }
}

proof fn lemma_top_level_is(tree: SyntaxTree, found: int, i: int)
    requires
        tree.wf(),
        0 <= i < tree@.len(),
        tree.encloses(found, i),
        below_root(tree, found),
        forall|k: int|
            found < k <= i && #[trigger] tree.encloses(k, i) ==> (parent_of(tree, k) matches Some(p)
                ==> !is_root(tree.kind_of(p))),
    ensures
        top_level_of(tree, i) == Some(found),
    decreases i,
{
    if i != found {
        lemma_encloses_order(tree, found, i);
        assert(tree.encloses(i, i));
        let p = parent_of(tree, i)->0;
        assert forall|k: int| found < k <= p && #[trigger] tree.encloses(k, p) implies (parent_of(
            tree,
            k,
        ) matches Some(q) ==> !is_root(tree.kind_of(q))) by {
            assert(tree.encloses(k, i));
        }
        lemma_top_level_is(tree, found, p);
    }
}

} // verus!
