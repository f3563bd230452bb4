use std::ops::Range;

use repl_editor::{
    block_offset, block_range, jupytext_cells, line_offset, line_runnable_range, run_offset,
    runnable_ranges, BufferSnapshot, Injection, Language, LanguageName, Node, Point, ReplRunMode, SyntaxLayer, SyntaxTree,
};

fn language(id: u64, name: &str, prefixes: &[&str], kernels: &[&str]) -> Language {
    Language {
        id,
        name: LanguageName(name.to_string()),
        line_comment_prefixes: prefixes.iter().map(|p| p.to_string()).collect(),
        kernel_languages: kernels.iter().map(|k| k.to_string()).collect(),
    }
}

fn test_language() -> Language {
    language(1, "TestLang", &["# "], &[])
}

fn python() -> Language {
    language(2, "Python", &["# "], &["python"])
}

fn markdown() -> Language {
    language(3, "Markdown", &[], &[])
}

fn typescript() -> Language {
    language(4, "TypeScript", &["// "], &["typescript"])
}

fn point(p: tree_sitter::Point) -> Point {
    Point::new(p.row as u32, p.column as u32)
}

fn list_nodes(cursor: &mut tree_sitter::TreeCursor, parent: Option<usize>, nodes: &mut Vec<Node>) {
    let node = cursor.node();
    let number = nodes.len();
    nodes.push(Node {
        kind: node.kind().to_string(),
        start_byte: node.start_byte(),
        end_byte: node.end_byte(),
        start_position: point(node.start_position()),
        end_position: point(node.end_position()),
        parent,
        is_body: cursor.field_name() == Some("body"),
    });
    if cursor.goto_first_child() {
        loop {
            list_nodes(cursor, Some(number), nodes);
            if !cursor.goto_next_sibling() {
                break;
            }
        }
        cursor.goto_parent();
    }
}

fn parse(grammar: tree_sitter::Language, text: &str) -> tree_sitter::Tree {
    let mut parser = tree_sitter::Parser::new();
    parser.set_language(&grammar).unwrap();
    parser.parse(text, None).unwrap()
}

/// A buffer together with the tree that its syntax layer was read from.
struct Source {
    buffer: BufferSnapshot,
    tree: Option<tree_sitter::Tree>,
}

impl std::ops::Deref for Source {
    type Target = BufferSnapshot;

    fn deref(&self) -> &BufferSnapshot {
        &self.buffer
    }
}

impl Source {
    /// The number of the node at which the parser's cursor ends on its way to the
    /// byte at `offset`.
    fn node_at(&self, offset: Option<usize>) -> Option<usize> {
        let tree = self.tree.as_ref()?;
        let offset = offset?;
        let mut cursor = tree.walk();
        while cursor.goto_first_child_for_byte(offset).is_some() {}
        let number = cursor.descendant_index();
        let listed = self.buffer.syntax_layer_at(offset)?.tree.node(number);
        assert_eq!(listed.kind, cursor.node().kind());
        assert_eq!(listed.start_byte..listed.end_byte, cursor.node().byte_range());
        Some(number)
    }
}

fn plain_buffer(text: &str) -> Source {
    let buffer = BufferSnapshot::new(text, Some(test_language()), Vec::new()).unwrap();
    Source { buffer, tree: None }
}

fn python_buffer(text: &str) -> Source {
    parsed_buffer(tree_sitter_python::LANGUAGE.into(), python, text)
}

fn typescript_buffer(text: &str) -> Source {
    parsed_buffer(tree_sitter_typescript::LANGUAGE_TYPESCRIPT.into(), typescript, text)
}

fn parsed_buffer(grammar: tree_sitter::Language, language: fn() -> Language, text: &str) -> Source {
    let tree = parse(grammar, text);
    let mut nodes = Vec::new();
    list_nodes(&mut tree.walk(), None, &mut nodes);
    let layer = SyntaxLayer {
        language: language(),
        ranges: vec![0..text.len() + 1],
        tree: SyntaxTree::new(nodes).unwrap(),
    };
    let buffer = BufferSnapshot::new(text, Some(language()), vec![layer]).unwrap();
    Source { buffer, tree: Some(tree) }
}

fn line_range(source: &Source, range: Range<Point>) -> Range<Point> {
    let node = source.node_at(line_offset(&source.buffer, &range));
    line_runnable_range(&source.buffer, range, node)
}

fn block(source: &Source, range: Range<Point>) -> Option<Range<Point>> {
    let node = source.node_at(block_offset(&source.buffer, &range));
    block_range(&source.buffer, range, node)
}

fn markdown_buffer(text: &str, range: &Range<Point>) -> (BufferSnapshot, Vec<Injection>) {
    let buffer = BufferSnapshot::new(text, Some(markdown()), Vec::new()).unwrap();
    let start = buffer.point_to_offset(range.start);
    let end = buffer.point_to_offset(range.end);
    let tree = parse(tree_sitter_md::LANGUAGE.into(), text);
    let mut injections = Vec::new();
    find_code_blocks(tree.root_node(), text, start..end, &mut injections);
    (buffer, injections)
}

fn find_code_blocks(
    node: tree_sitter::Node,
    text: &str,
    range: Range<usize>,
    injections: &mut Vec<Injection>,
) {
    let mut cursor = node.walk();
    if node.kind() == "fenced_code_block" {
        let mut name = "";
        let mut content = None;
        for child in node.children(&mut cursor) {
            if child.kind() == "info_string" {
                name = text[child.byte_range()].trim();
            } else if child.kind() == "code_fence_content" {
                content = Some(child.byte_range());
            }
        }
        let language = match name {
            "typescript" | "ts" => Some(typescript()),
            "python" => Some(python()),
            "haskell" => Some(language(9, "Haskell", &["-- "], &["haskell"])),
            _ => None,
        };
        if let (Some(content), Some(language)) = (content, language) {
            if content.start <= range.end && content.end >= range.start {
                injections.push(Injection { range: content, language });
            }
        }
    } else {
        for child in node.children(&mut cursor) {
            find_code_blocks(child, text, range.clone(), injections);
        }
    }
}

fn at(row: u32, column: u32) -> Range<Point> {
    Point::new(row, column)..Point::new(row, column)
}

fn run(source: &Source, range: Range<Point>, mode: ReplRunMode) -> Vec<String> {
    let node = source.node_at(run_offset(&source.buffer, &range, mode));
    let (ranges, _) =
        runnable_ranges(&source.buffer, range, &Vec::new(), &Vec::new(), mode, node);
    ranges.iter().map(|range| source.text_for_range(range)).collect()
}

fn run_markdown(text: &str, range: Range<Point>, mode: ReplRunMode) -> Vec<String> {
    let kernels = vec!["typescript".to_string(), "python".to_string()];
    let (buffer, injections) = markdown_buffer(text, &range);
    let (ranges, next) = runnable_ranges(&buffer, range, &injections, &kernels, mode, None);
    assert_eq!(next, None);
    ranges.iter().map(|range| buffer.text_for_range(range)).collect()
}

#[test]
fn test_snippet_ranges() {
    let buffer = plain_buffer("print(1 + 1)\nprint(2 + 2)\n\nprint(4 + 4)\n\n\n");

    // Single-point selection
    assert_eq!(run(&buffer, at(0, 4), ReplRunMode::Line), vec!["print(1 + 1)"]);

    // Multi-line selection
    assert_eq!(
        run(&buffer, Point::new(0, 5)..Point::new(2, 0), ReplRunMode::Line),
        vec!["print(1 + 1)\nprint(2 + 2)"]
    );

    // Trimming multiple trailing blank lines
    assert_eq!(
        run(&buffer, Point::new(0, 5)..Point::new(5, 0), ReplRunMode::Line),
        vec!["print(1 + 1)\nprint(2 + 2)\n\nprint(4 + 4)"]
    );

    // Cell mode without lines that start a cell runs all code as one cell
    assert_eq!(
        run(&buffer, Point::new(0, 5)..Point::new(5, 0), ReplRunMode::Cell),
        vec!["print(1 + 1)\nprint(2 + 2)\n\nprint(4 + 4)"]
    );
}

#[test]
fn test_jupytext_snippet_ranges() {
    let buffer = plain_buffer(
        "# Hello!\n# %% [markdown]\n# This is some arithmetic\nprint(1 + 1)\nprint(2 + 2)\n\n\
         # %%\nprint(3 + 3)\nprint(4 + 4)\n\nprint(5 + 5)\n\n\n\n",
    );

    // The cell around an empty selection
    assert_eq!(
        run(&buffer, at(2, 5), ReplRunMode::Cell),
        vec!["# %% [markdown]\n# This is some arithmetic\nprint(1 + 1)\nprint(2 + 2)"]
    );

    // The cells that meet a selection
    assert_eq!(
        run(&buffer, Point::new(2, 5)..Point::new(6, 2), ReplRunMode::Cell),
        vec![
            "# %% [markdown]\n# This is some arithmetic\nprint(1 + 1)\nprint(2 + 2)",
            "# %%\nprint(3 + 3)\nprint(4 + 4)\n\nprint(5 + 5)",
        ]
    );
}

#[test]
fn test_markdown_code_blocks() {
    // Two code blocks meet the selection
    assert_eq!(
        run_markdown(
            "Hey this is Markdown!\n\n```typescript\nlet foo = 999;\nconsole.log(foo + 1999);\n\
             ```\n\n```typescript\nconsole.log(\"foo\")\n```\n",
            Point::new(3, 5)..Point::new(8, 5),
            ReplRunMode::Line,
        ),
        vec!["let foo = 999;\nconsole.log(foo + 1999);\n", "console.log(\"foo\")\n"]
    );

    // Three code blocks meet the selection
    assert_eq!(
        run_markdown(
            "Hey this is Markdown!\n\n```typescript\nlet foo = 999;\nconsole.log(foo + 1999);\n\
             ```\n\n```ts\nconsole.log(\"foo\")\n```\n\n```typescript\n\
             console.log(\"another code block\")\n```\n",
            Point::new(3, 5)..Point::new(12, 5),
            ReplRunMode::Line,
        ),
        vec![
            "let foo = 999;\nconsole.log(foo + 1999);\n",
            "console.log(\"foo\")\n",
            "console.log(\"another code block\")\n",
        ]
    );

    // Python code block
    assert_eq!(
        run_markdown(
            "Hey this is Markdown!\n\n```python\nprint(\"hello there\")\nprint(\"hello there\")\n\
             print(\"hello there\")\n```\n",
            Point::new(4, 5)..Point::new(5, 5),
            ReplRunMode::Line,
        ),
        vec!["print(\"hello there\")\nprint(\"hello there\")\nprint(\"hello there\")\n"]
    );
}

#[test]
fn test_skip_blank_lines_to_next_cell() {
    // A blank line skips to the next line that is not
    let buffer = plain_buffer("print(1 + 1)\n\nprint(2 + 2)\n");
    assert_eq!(run(&buffer, at(1, 0), ReplRunMode::Line), vec!["print(2 + 2)"]);

    // So do several
    let buffer = plain_buffer("print(1 + 1)\n\n\n\nprint(2 + 2)\n");
    assert_eq!(run(&buffer, at(2, 0), ReplRunMode::Line), vec!["print(2 + 2)"]);

    // Blank lines at the end of the buffer run nothing
    let buffer = plain_buffer("print(1 + 1)\n\n");
    assert!(run(&buffer, at(1, 0), ReplRunMode::Line).is_empty());
}

#[test]
fn test_run_all_and_run_above_with_cells() {
    let text = "# Hello!\nprint(\"before first cell\", 0)\n\n# %% [markdown]\n\
                # This is some arithmetic\nprint(1 + 1)\nprint(2 + 2)\n\n# %%\nprint(3 + 3)\n\
                print(4 + 4)\n\nprint(5 + 5)\n\n\n\n";
    let buffer = plain_buffer(text);

    // Everything
    assert_eq!(
        run(&buffer, at(1, 0), ReplRunMode::All),
        vec![
            "# Hello!\nprint(\"before first cell\", 0)\n\n# %% [markdown]\n\
             # This is some arithmetic\nprint(1 + 1)\nprint(2 + 2)\n\n# %%\nprint(3 + 3)\n\
             print(4 + 4)\n\nprint(5 + 5)"
        ]
    );

    // The cells above
    assert_eq!(
        run(&buffer, Point::new(10, 0)..Point::new(10, 3), ReplRunMode::AboveCells),
        vec![
            "# Hello!\nprint(\"before first cell\", 0)",
            "# %% [markdown]\n# This is some arithmetic\nprint(1 + 1)\nprint(2 + 2)",
        ]
    );

    // The lines above
    assert_eq!(
        run(&buffer, at(2, 0), ReplRunMode::Above),
        vec!["# Hello!\nprint(\"before first cell\", 0)"]
    );
}

#[test]
fn test_run_all_and_run_above_without_cells() {
    let buffer = plain_buffer(
        "# Hello!\nprint(\"before first cell\", 0)\n\n# [markdown]\n# This is some arithmetic\n\
         print(1 + 1)\nprint(2 + 2)\n\n# \nprint(3 + 3)\nprint(4 + 4)\n\nprint(5 + 5)\n\n\n\n",
    );

    // Everything
    assert_eq!(
        run(&buffer, at(1, 0), ReplRunMode::All),
        vec![
            "# Hello!\nprint(\"before first cell\", 0)\n\n# [markdown]\n\
             # This is some arithmetic\nprint(1 + 1)\nprint(2 + 2)\n\n# \nprint(3 + 3)\n\
             print(4 + 4)\n\nprint(5 + 5)"
        ]
    );

    // The lines above
    assert_eq!(
        run(&buffer, Point::new(10, 0)..Point::new(10, 3), ReplRunMode::Above),
        vec![
            "# Hello!\nprint(\"before first cell\", 0)\n\n# [markdown]\n\
             # This is some arithmetic\nprint(1 + 1)\nprint(2 + 2)\n\n# \nprint(3 + 3)"
        ]
    );
}

#[test]
fn test_block_range_python() {
    // A function
    let buffer = python_buffer("def times_two(x):\n    print(x*2)\ntimes_two(3)\n");

    // The cursor in the body selects the whole function
    let range = block(&buffer, at(1, 4));
    assert!(range.is_some());
    let text = buffer.text_for_range(&range.unwrap());
    assert_eq!(text, "def times_two(x):\n    print(x*2)");

    // The cursor on a statement selects just that statement
    let range = block(&buffer, at(2, 0));
    assert!(range.is_some());
    assert_eq!(buffer.text_for_range(&range.unwrap()), "times_two(3)");

    // A for loop
    let buffer = python_buffer("for i in range(3):\n    print(i)\nprint(\"done\")\n");

    // The cursor in the body selects the whole loop
    let range = block(&buffer, at(1, 4));
    assert!(range.is_some());
    assert_eq!(
        buffer.text_for_range(&range.unwrap()),
        "for i in range(3):\n    print(i)"
    );

    // A class
    let buffer = python_buffer("class Foo:\n    def bar(self):\n        pass\nx = Foo()\n");

    // The cursor in a method selects the whole class
    let range = block(&buffer, at(2, 8));
    assert!(range.is_some());
    assert_eq!(
        buffer.text_for_range(&range.unwrap()),
        "class Foo:\n    def bar(self):\n        pass"
    );

    // A selection is used as it is
    let range = block(&buffer, Point::new(1, 0)..Point::new(2, 12));
    assert!(range.is_some());
    assert_eq!(
        buffer.text_for_range(&range.unwrap()),
        "    def bar(self):\n        pass"
    );
}

const PYTHON: &str = r#"# This is a comment
print("First line")

def func(long_arg_a, long_arc_b,
    long_arc_c):
    print("First line of func")
    for i in range(4):
        if(i%3==0):
            print("Inside if")
        elif(i%3==1):
            print("Inside elif")
        else:
            with open("f.txt") as f:
                f.readline()
            print("Inside else")
        print("Inside for outside if..else")
        try:
            x = 1 / (i - 2)
        except ZeroDivisionError:
            print("Division by zero")
        except Exception as e:
            print("Other error")
        finally:
            print("Finally block")
    match status:
        case 200:
            print("OK")
        case 404:
            print("Not Found")
        case _:
            print("Unknown")
    print(
        "multi-line",
        "call",
    )

async def async_func():
    async for j in async_range(3):
        print(j)
    async with async_open("f.txt") as f:
        await f.read()

print("Last line")
"#;

#[test]
fn test_line_runnable_range() {
    let buffer = python_buffer(PYTHON);
    let run_line = |row: u32| -> String {
        let range = line_range(&buffer, at(row, 0));
        buffer.text_for_range(&range)
    };

    // A comment
    assert_eq!(run_line(0), r#"print("First line")"#);

    // A blank line and both lines of the header run the whole function
    assert_eq!(
        run_line(2),
        "def func(long_arg_a, long_arc_b,\n    long_arc_c):\n    print(\"First line of func\")\n    for i in range(4):\n        if(i%3==0):\n            print(\"Inside if\")\n        elif(i%3==1):\n            print(\"Inside elif\")\n        else:\n            with open(\"f.txt\") as f:\n                f.readline()\n            print(\"Inside else\")\n        print(\"Inside for outside if..else\")\n        try:\n            x = 1 / (i - 2)\n        except ZeroDivisionError:\n            print(\"Division by zero\")\n        except Exception as e:\n            print(\"Other error\")\n        finally:\n            print(\"Finally block\")\n    match status:\n        case 200:\n            print(\"OK\")\n        case 404:\n            print(\"Not Found\")\n        case _:\n            print(\"Unknown\")\n    print(\n        \"multi-line\",\n        \"call\",\n    )"
    );
    assert!(run_line(2) == run_line(3) && run_line(2) == run_line(4));

    // A single line
    assert_eq!(run_line(1), r#"print("First line")"#);

    // A call over several lines
    assert_eq!(
        run_line(31),
        "    print(\n        \"multi-line\",\n        \"call\",\n    )"
    );
    assert_eq!(
        run_line(32),
        "    print(\n        \"multi-line\",\n        \"call\",\n    )"
    );
    assert_eq!(
        run_line(33),
        "    print(\n        \"multi-line\",\n        \"call\",\n    )"
    );
    assert_eq!(
        run_line(34),
        "    print(\n        \"multi-line\",\n        \"call\",\n    )"
    );

    // A function
    assert_eq!(
        run_line(3),
        "def func(long_arg_a, long_arc_b,\n    long_arc_c):\n    print(\"First line of func\")\n    for i in range(4):\n        if(i%3==0):\n            print(\"Inside if\")\n        elif(i%3==1):\n            print(\"Inside elif\")\n        else:\n            with open(\"f.txt\") as f:\n                f.readline()\n            print(\"Inside else\")\n        print(\"Inside for outside if..else\")\n        try:\n            x = 1 / (i - 2)\n        except ZeroDivisionError:\n            print(\"Division by zero\")\n        except Exception as e:\n            print(\"Other error\")\n        finally:\n            print(\"Finally block\")\n    match status:\n        case 200:\n            print(\"OK\")\n        case 404:\n            print(\"Not Found\")\n        case _:\n            print(\"Unknown\")\n    print(\n        \"multi-line\",\n        \"call\",\n    )"
    );

    // A for loop
    assert_eq!(
        run_line(6),
        "    for i in range(4):\n        if(i%3==0):\n            print(\"Inside if\")\n        elif(i%3==1):\n            print(\"Inside elif\")\n        else:\n            with open(\"f.txt\") as f:\n                f.readline()\n            print(\"Inside else\")\n        print(\"Inside for outside if..else\")\n        try:\n            x = 1 / (i - 2)\n        except ZeroDivisionError:\n            print(\"Division by zero\")\n        except Exception as e:\n            print(\"Other error\")\n        finally:\n            print(\"Finally block\")"
    );

    // An if statement with its clauses
    assert_eq!(
        run_line(7),
        "        if(i%3==0):\n            print(\"Inside if\")\n        elif(i%3==1):\n            print(\"Inside elif\")\n        else:\n            with open(\"f.txt\") as f:\n                f.readline()\n            print(\"Inside else\")"
    );
    assert_eq!(run_line(9), run_line(7)); // elif
    assert_eq!(run_line(11), run_line(7)); // else

    // A with block
    assert_eq!(
        run_line(12),
        "            with open(\"f.txt\") as f:\n                f.readline()"
    );

    // A try statement with its clauses
    assert_eq!(
        run_line(16),
        "        try:\n            x = 1 / (i - 2)\n        except ZeroDivisionError:\n            print(\"Division by zero\")\n        except Exception as e:\n            print(\"Other error\")\n        finally:\n            print(\"Finally block\")"
    );
    assert_eq!(run_line(18), run_line(16)); // except
    assert_eq!(run_line(22), run_line(16)); // finally

    // A match statement with its clauses
    assert_eq!(
        run_line(24),
        "    match status:\n        case 200:\n            print(\"OK\")\n        case 404:\n            print(\"Not Found\")\n        case _:\n            print(\"Unknown\")"
    );
    assert_eq!(run_line(25), run_line(24)); // case

    // An async function
    assert_eq!(
        run_line(36),
        "async def async_func():\n    async for j in async_range(3):\n        print(j)\n    async with async_open(\"f.txt\") as f:\n        await f.read()"
    );

    // An async for loop
    assert_eq!(
        run_line(37),
        "    async for j in async_range(3):\n        print(j)"
    );

    // An async with block
    assert_eq!(
        run_line(39),
        "    async with async_open(\"f.txt\") as f:\n        await f.read()"
    );

    // The last line
    assert_eq!(run_line(42), r#"print("Last line")"#);

    // An expression in brackets over several lines
    let brackets = python_buffer("(\ndf.fillna(0)\n    .head()\n)\n");
    let run_bracket_line = |row: u32| -> String {
        let range = line_range(&brackets, at(row, 0));
        brackets.text_for_range(&range)
    };
    assert_eq!(run_bracket_line(0), "(\ndf.fillna(0)\n    .head()\n)");
    assert_eq!(run_bracket_line(3), "(\ndf.fillna(0)\n    .head()\n)");
}

#[test]
fn next_cell_comes_with_the_cells() {
    let buffer = plain_buffer("a\n# %%\nb\n# %%\nc\n");
    let (cells, next) = jupytext_cells(&buffer, at(0, 0));
    assert_eq!(cells, vec![Point::new(0, 0)..Point::new(0, 1)]);
    assert_eq!(next, Some(Point::new(1, 0)));
    let (cells, next) = jupytext_cells(&buffer, at(2, 0));
    assert_eq!(cells, vec![Point::new(1, 0)..Point::new(2, 1)]);
    assert_eq!(next, Some(Point::new(3, 0)));
    let (cells, next) = jupytext_cells(&buffer, at(4, 0));
    assert_eq!(cells, vec![Point::new(3, 0)..Point::new(4, 1)]);
    assert_eq!(next, None);
}

#[test]
fn code_blocks_without_a_kernel_are_left_out() {
    let text = "```haskell\nmain = pure ()\n```\n\n```python\nprint(1)\n```\n";
    for mode in [
        ReplRunMode::Block,
        ReplRunMode::Line,
        ReplRunMode::Cell,
        ReplRunMode::Above,
        ReplRunMode::AboveCells,
        ReplRunMode::All,
    ] {
        assert_eq!(
            run_markdown(text, Point::new(0, 0)..Point::new(6, 0), mode),
            vec!["print(1)\n"]
        );
    }
}

#[test]
fn parsed_nodes_lie_in_the_buffer_and_in_their_parents() {
    for text in [PYTHON, "\u{e9} = f(\n  \"\u{20ac}\"\n); x\n\n", "if a:\n    b"] {
        let tree = parse(tree_sitter_python::LANGUAGE.into(), text);
        let mut nodes = Vec::new();
        list_nodes(&mut tree.walk(), None, &mut nodes);
        let buffer = plain_buffer(text);
        for node in &nodes {
            assert!(node.start_byte <= node.end_byte && node.end_byte <= text.len());
            assert_eq!(buffer.offset_to_point(node.start_byte), node.start_position);
            assert_eq!(buffer.offset_to_point(node.end_byte), node.end_position);
            if let Some(parent) = node.parent {
                assert!(nodes[parent].start_byte <= node.start_byte);
                assert!(node.end_byte <= nodes[parent].end_byte);
            }
        }
    }
}

#[test]
fn layers_that_do_not_fit_are_refused() {
    let node = |bytes: Range<usize>, start: Point, end: Point, parent: Option<usize>| Node {
        kind: "text".to_string(),
        start_byte: bytes.start,
        end_byte: bytes.end,
        start_position: start,
        end_position: end,
        parent,
        is_body: false,
    };
    let accepted = |nodes: Vec<Node>| {
        let layer = SyntaxLayer {
            language: python(),
            ranges: vec![0..7],
            tree: SyntaxTree::new(nodes).unwrap(),
        };
        BufferSnapshot::new("one\ntwo", Some(python()), vec![layer]).is_some()
    };
    let p = Point::new;
    assert!(accepted(vec![node(0..7, p(0, 0), p(1, 3), None)]));
    assert!(accepted(vec![node(1..7, p(0, 1), p(1, 3), None), node(4..5, p(1, 0), p(1, 1), Some(0))]));
    // It ends behind the text, or on a row that is not there.
    assert!(!accepted(vec![node(0..8, p(0, 0), p(1, 4), None)]));
    assert!(!accepted(vec![node(0..8, p(0, 0), p(2, 0), None)]));
    // The position is not that of the byte.
    assert!(!accepted(vec![node(0..7, p(0, 0), p(1, 2), None)]));
    assert!(!accepted(vec![node(4..7, p(0, 4), p(1, 3), None)]));
    // It ends before it starts.
    assert!(!accepted(vec![node(4..3, p(1, 0), p(0, 3), None)]));
    // It is not inside its parent.
    assert!(!accepted(vec![node(1..7, p(0, 1), p(1, 3), None), node(0..5, p(0, 0), p(1, 1), Some(0))]));
    assert!(!accepted(vec![node(1..5, p(0, 1), p(1, 1), None), node(4..6, p(1, 0), p(1, 2), Some(0))]));
}

#[test]
fn the_offset_of_a_line_is_named() {
    let buffer = plain_buffer("a = 1\n\n# c\nb\n\n");
    assert_eq!(line_offset(&buffer, &at(0, 2)), Some(2));
    assert_eq!(line_offset(&buffer, &at(0, 5)), Some(4));
    assert_eq!(line_offset(&buffer, &at(1, 0)), Some(11));
    assert_eq!(line_offset(&buffer, &at(2, 1)), Some(11));
    assert_eq!(line_offset(&buffer, &at(4, 0)), None);
    assert_eq!(block_offset(&buffer, &at(0, 5)), Some(5));
    assert_eq!(block_offset(&buffer, &(Point::new(0, 0)..Point::new(0, 1))), None);
    assert_eq!(run_offset(&buffer, &at(1, 0), ReplRunMode::Line), Some(11));
    assert_eq!(run_offset(&buffer, &at(1, 0), ReplRunMode::Block), Some(6));
    assert_eq!(run_offset(&buffer, &at(1, 0), ReplRunMode::All), None);
    let selection = Point::new(0, 0)..Point::new(0, 1);
    assert_eq!(run_offset(&buffer, &selection, ReplRunMode::Line), None);
    let (markdown, _) = markdown_buffer("a\n", &at(0, 0));
    assert_eq!(run_offset(&markdown, &at(0, 0), ReplRunMode::Line), None);
}

#[test]
fn lists_that_are_no_trees_are_refused() {
    let node = |parent: Option<usize>| Node {
        kind: "module".to_string(),
        start_byte: 0,
        end_byte: 0,
        start_position: Point::new(0, 0),
        end_position: Point::new(0, 0),
        parent,
        is_body: false,
    };
    assert!(SyntaxTree::new(Vec::new()).is_none());
    assert!(SyntaxTree::new(vec![node(Some(0))]).is_none());
    assert!(SyntaxTree::new(vec![node(None), node(None)]).is_none());
    assert!(SyntaxTree::new(vec![node(None), node(Some(1))]).is_none());
    assert!(SyntaxTree::new(vec![node(None), node(Some(0)), node(Some(1))]).is_some());
}

#[test]
fn cursor_at_the_end_of_a_line_stays_on_it() {
    let buffer = python_buffer("x = (1 +\n     2)\ny = 3\n");
    let range = line_range(&buffer, at(2, 5));
    assert_eq!(buffer.text_for_range(&range), "y = 3");
    let range = line_range(&buffer, at(1, 7));
    assert_eq!(buffer.text_for_range(&range), "x = (1 +\n     2)");
}

fn line(buffer: &Source, row: u32, column: u32) -> String {
    buffer.text_for_range(&line_range(buffer, at(row, column)))
}

#[test]
fn every_row_of_a_head_runs_the_block() {
    let buffer = python_buffer("for i in f(\n    3\n):\n    pass\n");
    let whole = Point::new(0, 0)..Point::new(3, 8);
    for row in 0..3 {
        assert_eq!(line_range(&buffer, at(row, 0)), whole);
    }
    assert_eq!(line_range(&buffer, at(1, 4)), whole);
    assert_eq!(line(&buffer, 3, 0), "    pass");

    for head in ["while (\n    a\n):", "with (\n    a as b,\n):", "if (\n    a\n):"] {
        let text = format!("x = 1\n{}\n    y = 2\n    z = 3\n", head);
        let buffer = python_buffer(&text);
        for row in 1..4 {
            assert_eq!(
                line_range(&buffer, at(row, 0)),
                Point::new(1, 0)..Point::new(5, 9)
            );
        }
        assert_eq!(line(&buffer, 4, 4), "    y = 2");
    }
    let buffer = python_buffer("match f(\n    1\n):\n    case (\n        1\n    ):\n        a\n");
    for row in 0..6 {
        assert_eq!(line_range(&buffer, at(row, 8)), Point::new(0, 0)..Point::new(6, 9));
    }
    assert_eq!(line(&buffer, 6, 8), "        a");
}

#[test]
fn every_row_of_the_head_of_a_clause_runs_the_owner() {
    let text = "if a:\n    b\nelif (\n    c\n):\n    d\nelse:\n    e";
    let buffer = python_buffer(text);
    for row in [0, 2, 3, 4, 6] {
        assert_eq!(line(&buffer, row, 0), text);
    }
    assert_eq!(line(&buffer, 5, 0), "    d");
    let text = "try:\n    a\nexcept (\n    B,\n    C,\n) as e:\n    d\nfinally:\n    e";
    let buffer = python_buffer(text);
    for row in [0, 2, 3, 4, 5, 7] {
        assert_eq!(line(&buffer, row, 0), text);
    }
}

#[test]
fn a_body_behind_a_head_never_runs_half_of_it() {
    let text = "for i in f(\n    3\n): g(i)";
    let buffer = python_buffer(text);
    for column in 0..7 {
        assert_eq!(line(&buffer, 2, column), text);
    }
    let text = "for i in f(\n    3\n): g(\n    i\n)";
    let buffer = python_buffer(text);
    for row in 0..5 {
        assert_eq!(line(&buffer, row, 4), text);
    }
    let text = "if a: b\nelse: c";
    let buffer = python_buffer(text);
    assert_eq!(line(&buffer, 0, 0), text);
    assert_eq!(line(&buffer, 0, 6), "if a: b");
    for column in 0..7 {
        assert_eq!(line(&buffer, 1, column), text);
    }
    let text = "def f(\n    a\n): return a";
    let buffer = python_buffer(text);
    for row in 0..3 {
        assert_eq!(line(&buffer, row, 4), text);
    }
}

#[test]
fn heads_in_front_of_braces() {
    let text = "for (let i = 0;\n     i < 3;\n     i++) {\n  f(i);\n}";
    let buffer = typescript_buffer(text);
    for row in 0..3 {
        assert_eq!(line(&buffer, row, 2), text);
    }
    assert_eq!(line(&buffer, 3, 2), "  f(i);");
    let buffer = typescript_buffer("while (a)\n{ b(); }");
    assert_eq!(line(&buffer, 0, 0), "while (a)\n{ b(); }");
    for column in 0..8 {
        assert_eq!(line(&buffer, 1, column), "{ b(); }");
    }
    let buffer = typescript_buffer("while (a)\n{\n  b();\n}");
    assert_eq!(line(&buffer, 0, 0), "while (a)\n{\n  b();\n}");
    assert_eq!(line(&buffer, 1, 0), "{\n  b();\n}");
    assert_eq!(line(&buffer, 2, 0), "  b();");
    assert_eq!(line(&buffer, 3, 0), "{\n  b();\n}");
}

#[test]
fn rows_between_braces_run_alone() {
    let text = "if (a) {\n  b();\n} else {\n  c();\n}";
    let buffer = typescript_buffer(text);
    assert_eq!(line(&buffer, 0, 0), text);
    assert_eq!(line(&buffer, 1, 0), "  b();");
    assert_eq!(line(&buffer, 2, 0), "if (a) {\n  b();\n}");
    assert_eq!(line(&buffer, 2, 2), text);
    assert_eq!(line(&buffer, 3, 0), "  c();");
    assert_eq!(line(&buffer, 3, 2), "  c();");

    let text = "function f() {\n  const x = 1;\n  g(\n    x,\n  );\n  while (x) {\n    h(y);\n  }\n}";
    let buffer = typescript_buffer(text);
    assert_eq!(line(&buffer, 0, 0), text);
    assert_eq!(line(&buffer, 1, 0), "  const x = 1;");
    for row in 2..5 {
        assert_eq!(line(&buffer, row, 4), "  g(\n    x,\n  );");
    }
    assert_eq!(line(&buffer, 5, 0), "  while (x) {\n    h(y);\n  }");
    assert_eq!(line(&buffer, 6, 0), "    h(y);");
    assert_eq!(line(&buffer, 7, 0), "  while (x) {\n    h(y);\n  }");
    assert_eq!(line(&buffer, 8, 0), text);
    let text = "if (a) { b(); }\nelse { c(); }";
    let buffer = typescript_buffer(text);
    for column in 0..15 {
        assert_eq!(line(&buffer, 0, column), text);
    }
}

#[test]
fn the_cursor_of_the_parser_decides() {
    // Behind a node that the parser keeps to itself its cursor stays at the parent.
    let text = "# Title\n\nSome *text* here.\n";
    let source = parsed_buffer(tree_sitter_md::LANGUAGE.into(), markdown, text);
    let node = source.node_at(Some(20)).unwrap();
    let tree = &source.syntax_layer_at(20).unwrap().tree;
    assert_eq!(tree.node(node).kind, "inline");
}

#[test]
fn a_line_is_a_range_of_the_buffer() {
    for buffer in [python_buffer(PYTHON), python_buffer("if a: b\n\n  # c\nelse:\n  d\n\n#")] {
        for row in 0..buffer.max_row() + 1 {
            for column in 0..buffer.line_len(row) + 1 {
                let range = line_range(&buffer, at(row, column));
                assert_eq!(range.start.column, 0);
                let start = buffer.point_to_offset(range.start);
                let end = buffer.point_to_offset(range.end);
                assert!(start <= end);
                assert!(range.end.column <= buffer.line_len(range.end.row));
                assert!(range.end.row <= buffer.max_row());
                let longer = Point::new(row, column)..buffer.max_point();
                assert_eq!(line_range(&buffer, longer), range);
                if !buffer.is_blank_or_comment(row) {
                    assert!(range.start.row <= row && row <= range.end.row);
                }
            }
        }
    }
}

#[test]
fn comments_at_the_end_run_nothing() {
    let buffer = python_buffer("x = 1\n# done\n\n");
    let range = line_range(&buffer, at(1, 3));
    assert_eq!(range, at(1, 0));
}

#[test]
fn block_mode_runs_the_block_or_the_selection() {
    let buffer = python_buffer("def f():\n    pass\n\nx = 1\n\n");
    assert_eq!(
        run(&buffer, at(1, 4), ReplRunMode::Block),
        vec!["def f():\n    pass"]
    );
    assert_eq!(
        run(&buffer, Point::new(0, 2)..Point::new(4, 0), ReplRunMode::Block),
        vec!["def f():\n    pass\n\nx = 1"]
    );
}

#[test]
fn blank_lines_above_run_nothing() {
    let buffer = plain_buffer("\nprint(1)\n");
    assert_eq!(
        runnable_ranges(&buffer, at(1, 0), &Vec::new(), &Vec::new(), ReplRunMode::Above, None),
        (Vec::new(), None)
    );
    let buffer = plain_buffer("\n\nprint(1)\nprint(2)\n");
    assert!(run(&buffer, at(2, 0), ReplRunMode::Above).is_empty());
    assert!(run(&buffer, at(1, 0), ReplRunMode::Above).is_empty());
    assert_eq!(run(&buffer, at(3, 0), ReplRunMode::Above), vec!["\n\nprint(1)"]);
    assert!(run(&buffer, at(0, 0), ReplRunMode::Above).is_empty());
}

#[test]
fn a_blank_buffer_runs_nothing() {
    let buffer = plain_buffer("\n  \n\t\n");
    for mode in [
        ReplRunMode::Block,
        ReplRunMode::Line,
        ReplRunMode::Above,
        ReplRunMode::AboveCells,
        ReplRunMode::All,
    ] {
        assert!(run(&buffer, at(1, 0), mode).is_empty());
    }
}

#[test]
fn cells_above_leave_out_the_first_cell() {
    let buffer = plain_buffer("print(1)\n# %%\nprint(2)\n");
    assert!(run(&buffer, at(0, 0), ReplRunMode::AboveCells).is_empty());
    assert_eq!(run(&buffer, at(2, 0), ReplRunMode::AboveCells), vec!["print(1)"]);
}

#[test]
fn no_language_means_no_cells_and_no_code() {
    let unparsed = |language: Option<Language>| Source {
        buffer: BufferSnapshot::new("print(1)\n", language, Vec::new()).unwrap(),
        tree: None,
    };
    let buffer = unparsed(None);
    assert!(run(&buffer, at(0, 0), ReplRunMode::Cell).is_empty());
    assert!(run(&buffer, at(0, 0), ReplRunMode::Line).is_empty());
    let silent = language(5, "Silent", &[], &[]);
    let buffer = unparsed(Some(silent));
    assert!(run(&buffer, at(0, 0), ReplRunMode::Cell).is_empty());
    assert_eq!(run(&buffer, at(0, 0), ReplRunMode::Line), vec!["print(1)"]);
}

#[test]
fn a_snippet_across_languages_does_not_run() {
    let node = |kind: &str, bytes: Range<usize>, start: Point, end: Point| Node {
        kind: kind.to_string(),
        start_byte: bytes.start,
        end_byte: bytes.end,
        start_position: start,
        end_position: end,
        parent: if kind == "module" { None } else { Some(0) },
        is_body: false,
    };
    let layer = |language: Language, range: Range<usize>| SyntaxLayer {
        language,
        tree: SyntaxTree::new(vec![
            node("module", 0..8, Point::new(0, 0), Point::new(2, 0)),
            node("name", 0..3, Point::new(0, 0), Point::new(0, 3)),
            node("name", 4..7, Point::new(1, 0), Point::new(1, 3)),
        ])
        .unwrap(),
        ranges: vec![range],
    };
    let buffer = BufferSnapshot::new(
        "one\ntwo\n",
        Some(test_language()),
        vec![layer(test_language(), 0..9), layer(python(), 4..8)],
    )
    .unwrap();
    let ran = |row: u32, mode: ReplRunMode, node: Option<usize>| -> Vec<String> {
        let (ranges, _) =
            runnable_ranges(&buffer, at(row, 0), &Vec::new(), &Vec::new(), mode, node);
        ranges.iter().map(|range| buffer.text_for_range(range)).collect()
    };
    assert!(ran(0, ReplRunMode::All, None).is_empty());
    assert_eq!(ran(1, ReplRunMode::Line, Some(2)), vec!["two"]);
    assert_eq!(ran(0, ReplRunMode::Line, Some(1)), vec!["one"]);
}

#[test]
fn positions_and_offsets() {
    let buffer = plain_buffer("ab\n\u{e9}\u{20ac}\n\nz");
    assert_eq!(buffer.max_point(), Point::new(3, 1));
    assert_eq!(buffer.line_len(1), 5);
    assert_eq!(buffer.line_len(9), 0);
    for (row, column, offset) in [(0, 0, 0), (0, 2, 2), (1, 0, 3), (1, 5, 8), (2, 0, 9), (3, 1, 11)] {
        let point = Point::new(row, column);
        assert_eq!(buffer.point_to_offset(point), offset);
        assert_eq!(buffer.offset_to_point(offset), point);
    }
    assert_eq!(buffer.point_to_offset(Point::new(0, 7)), 2);
    assert_eq!(buffer.point_to_offset(Point::new(8, 0)), 11);
    assert_eq!(buffer.offset_to_point(90), Point::new(3, 1));
    assert_eq!(
        buffer.text_for_range(&(Point::new(0, 1)..Point::new(1, 2))),
        "b\n\u{e9}"
    );
    assert_eq!(
        buffer.text_for_range(&(Point::new(0, 0)..Point::new(3, 1))),
        "ab\n\u{e9}\u{20ac}\n\nz"
    );
}
