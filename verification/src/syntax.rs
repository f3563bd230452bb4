//! Syntax trees: the nodes of one parse, and the walks through them.
use vstd::prelude::*;

use crate::point::Point;

verus! {

/// One node of a syntax tree.
pub struct Node {
    /// The name of the grammar rule that the node stands for.
    pub kind: String,
    /// The bytes of the buffer that the node covers.
    pub start_byte: usize,
    pub end_byte: usize,
    /// The same two ends as rows and columns.
    pub start_position: Point,
    pub end_position: Point,
    /// The number of the parent node; the root has none.
    pub parent: Option<usize>,
    /// Whether the node is its parent's field `body`.
    pub is_body: bool,
}

/// A syntax tree. Its nodes are numbered in the order in which a cursor of the
/// parser visits them, each node in front of its children and siblings in the
/// order of the text, so that the root is node zero.
pub struct SyntaxTree {
    nodes: Vec<Node>,
}

/// Whether `nodes` lists a tree: the root comes first, and every other node
/// comes after its parent.
pub open spec fn lists_tree(nodes: Seq<Node>) -> bool {
    &&& nodes.len() > 0
    &&& nodes[0].parent is None
    &&& forall|i: int|
        0 < i < nodes.len() ==> ((#[trigger] nodes[i]).parent matches Some(p) && p < i)
}

impl View for SyntaxTree {
    type V = Seq<Node>;

    closed spec fn view(&self) -> Seq<Node> {
        self.nodes@
    }
}

impl SyntaxTree {
    pub open spec fn wf(self) -> bool {
        lists_tree(self@)
    }

    /// The kind of node `i`.
    pub open spec fn kind_of(self, i: int) -> Seq<char> {
        self@[i].kind@
    }

    /// The row on which node `i` starts.
    pub open spec fn start_row(self, i: int) -> u32 {
        self@[i].start_position.row
    }

    /// The row on which node `i` ends.
    pub open spec fn end_row(self, i: int) -> u32 {
        self@[i].end_position.row
    }

    /// Whether node `j` is a child of node `i`.
    pub open spec fn is_child(self, i: int, j: int) -> bool {
        &&& 0 <= i < self@.len()
        &&& 0 <= j < self@.len()
        &&& self@[j].parent matches Some(p) && p == i
    }

    /// The first child of node `i`, from node `j` on, that is its body.
    pub open spec fn body_from(self, i: int, j: int) -> Option<int>
        decreases self@.len() - j,
    {
        if j >= self@.len() {
            None
        } else if self.is_child(i, j) && self@[j].is_body {
            Some(j)
        } else {
            self.body_from(i, j + 1)
        }
    }

    /// The body of node `i`, if it has one.
    pub open spec fn body_of(self, i: int) -> Option<int> {
        self.body_from(i, i + 1)
    }

    /// Whether node `a` is node `i` or an ancestor of it.
    pub open spec fn encloses(self, a: int, i: int) -> bool
        decreases i,
    {
        a == i || (match self@[i].parent {
            Some(p) => 0 <= i < self@.len() && p < i && self.encloses(a, p as int),
            None => false,
        })
    }

    /// The tree with the given nodes, if they list one.
    pub fn new(nodes: Vec<Node>) -> (r: Option<SyntaxTree>)
        ensures
            r is Some <==> lists_tree(nodes@),
            r matches Some(tree) ==> tree@ == nodes@ && tree.wf(),
    {
        if nodes.len() == 0 {
            return None;
        }
        if nodes[0].parent.is_some() {
            return None;
        }
        let mut i: usize = 1;
        while i < nodes.len()
            invariant
                1 <= i <= nodes@.len(),
                forall|k: int|
                    0 < k < i ==> ((#[trigger] nodes@[k]).parent matches Some(p) && p < k),
            decreases nodes@.len() - i,
        {
            match nodes[i].parent {
                Some(p) => {
                    if p >= i {
                        return None;
                    }
                },
                None => {
                    return None;
                },
            }
            i += 1;
        }
        Some(SyntaxTree { nodes })
    }

    /// The number of nodes.
    pub fn len(&self) -> (r: usize)
        ensures
            r == self@.len(),
    {
        self.nodes.len()
    }

    /// The node with the number `i`.
    pub fn node(&self, i: usize) -> (r: &Node)
        requires
            i < self@.len(),
        ensures
            *r == self@[i as int],
    {
        &self.nodes[i]
    }

    /// The body of node `i`, if it has one.
    pub fn child_body(&self, i: usize) -> (r: Option<usize>)
        requires
            self.wf(),
            i < self@.len(),
        ensures
            match self.body_of(i as int) {
                Some(j) => r matches Some(k) && k == j && i < j < self@.len(),
                None => r is None,
            },
    {
        let len: usize = self.nodes.len();
        let mut j: usize = i + 1;
        while j < len
            invariant
                len == self@.len(),
                i < j <= self@.len(),
                self@ == self.nodes@,
                self.body_of(i as int) == self.body_from(i as int, j as int),
            decreases self@.len() - j,
        {
            let child: bool = match self.nodes[j].parent {
                Some(p) => p == i,
                None => false,
            };
            if child && self.nodes[j].is_body {
                return Some(j);
            }
            j += 1;
        }
        None
    }
}

} // verus!
