//! The tree that the builder produces, and the ways in which building fails.

use crate::text::copy_strings;
use vstd::prelude::*;

verus! {

/// One entry of a sketch: a file or a folder with the entries below it.
/// A node owns its children; there are no references back to a parent.
#[derive(Debug, PartialEq, Eq)]
pub struct SketchNode {
    /// The entry's name.
    pub name: String,
    /// Whether the entry is a folder.
    pub is_dir: bool,
    /// The decorators in the order in which the source gives them.
    pub decorators: Vec<String>,
    /// The entries directly below this one, in source order.
    pub children: Vec<SketchNode>,
}

/// The mathematical value of a [`SketchNode`].
pub struct NodeView {
    pub name: Seq<char>,
    pub is_dir: bool,
    pub decorators: Seq<Seq<char>>,
    pub children: Seq<NodeView>,
}

/// The value of a node: its own fields and, for each child in order, the
/// child's value.
pub open spec fn node_view(node: SketchNode) -> NodeView
    decreases node,
{
    NodeView {
        name: node.name@,
        is_dir: node.is_dir,
        decorators: node.decorators.deep_view(),
        children: Seq::new(
            node.children@.len(),
            |i: int|
                if 0 <= i < node.children@.len() {
                    node_view(node.children@[i])
                } else {
                    arbitrary()
                },
        ),
    }
}

impl View for SketchNode {
    type V = NodeView;

    open spec fn view(&self) -> NodeView {
        node_view(*self)
    }
}

impl Clone for SketchNode {
    fn clone(&self) -> (copy: Self)
        ensures
            copy@ == self@,
        decreases self,
    {
        let mut children: Vec<SketchNode> = Vec::new();
        let mut i: usize = 0;
        while i < self.children.len()
            invariant
                i <= self.children@.len(),
                children@.len() == i,
                forall|j: int| 0 <= j < i ==> (#[trigger] children@[j])@ == self.children@[j]@,
            decreases self.children@.len() - i,
        {
            children.push(self.children[i].clone());
            i += 1;
        }
        let copy = SketchNode {
            name: self.name.clone(),
            is_dir: self.is_dir,
            decorators: copy_strings(&self.decorators),
            children,
        };
        assert(copy@.children =~= self@.children) by {
            assert(copy@.children.len() == self@.children.len());
            assert forall|j: int| 0 <= j < copy@.children.len() implies copy@.children[j]
                == self@.children[j] by {
                assert(copy.children@[j]@ == self.children@[j]@);
            }
        }
        copy
    }
}

impl DeepView for SketchNode {
    type V = NodeView;

    open spec fn deep_view(&self) -> NodeView {
        self.view()
    }
}

/// A node is well formed when it has a name, has no children if it is a
/// file, and every node below it is well formed too.
pub open spec fn well_formed(node: NodeView) -> bool
    decreases node,
{
    &&& node.name.len() > 0
    &&& !node.is_dir ==> node.children.len() == 0
    &&& forall|i: int|
        0 <= i < node.children.len() ==> well_formed(#[trigger] node.children[i])
}

/// A forest is well formed when each of its trees is.
pub open spec fn well_formed_forest(forest: Seq<NodeView>) -> bool {
    forall|i: int| 0 <= i < forest.len() ==> well_formed(#[trigger] forest[i])
}

/// The nodes of a forest in source order, each before its children and
/// each tree before the next, and each without its children.
pub open spec fn preorder(forest: Seq<NodeView>) -> Seq<NodeView>
    decreases forest,
{
    if forest.len() == 0 {
        Seq::empty()
    } else {
        let head = forest.first();
        seq![NodeView { children: Seq::empty(), ..head }] + preorder(head.children) + preorder(
            forest.drop_first(),
        )
    }
}

/// Why a sequence of tokens describes no forest.
#[derive(Debug, Clone, Copy, PartialEq, Eq)]
pub enum StructuralError {
    /// The entry on `line` has no name.
    EmptyName { line: usize },
    /// The entry on `child_line` is indented below the entry on
    /// `parent_line`, which is a file.
    FileHasChildren { parent_line: usize, child_line: usize },
}

/// The mathematical value of a [`StructuralError`].
pub enum ErrorView {
    EmptyName { line: nat },
    FileHasChildren { parent_line: nat, child_line: nat },
}

impl View for StructuralError {
    type V = ErrorView;

    open spec fn view(&self) -> ErrorView {
        match *self {
            StructuralError::EmptyName { line } => ErrorView::EmptyName { line: line as nat },
            StructuralError::FileHasChildren { parent_line, child_line } => {
                ErrorView::FileHasChildren {
                    parent_line: parent_line as nat,
                    child_line: child_line as nat,
                }
            },
        }
    }
}

} // verus!
