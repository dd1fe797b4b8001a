use vstd::prelude::*;

verus! {

/// A node of an outline: its label and the nodes directly below it, in order.
///
/// A label may hold line breaks, written either as a line-feed character or
/// as the two characters `\` and `n`.
#[derive(Debug)]
pub struct TreeNode {
    pub label: String,
    pub children: Vec<TreeNode>,
}

/// The tree that a [`TreeNode`] stands for.
pub struct Outline {
    pub label: Seq<char>,
    pub children: Seq<Outline>,
}

/// The tree that `node` stands for: its label's characters, and the trees
/// that its children stand for.
pub open spec fn outline_of(node: TreeNode) -> Outline
    decreases node,
{
    Outline {
        label: node.label@,
        children: Seq::new(
            node.children@.len(),
            |i: int|
                if 0 <= i < node.children@.len() {
                    outline_of(node.children@[i])
                } else {
                    arbitrary()
                },
        ),
    }
}

impl View for TreeNode {
    type V = Outline;

    open spec fn view(&self) -> Outline {
        outline_of(*self)
    }
}

/// The trees that a sequence of nodes stands for.
pub open spec fn outlines(nodes: Seq<TreeNode>) -> Seq<Outline> {
    Seq::new(nodes.len(), |i: int| nodes[i]@)
}

/// What the tree of a node holds: the characters of the node's label, and
/// the trees of the node's children.
pub proof fn lemma_outline_of(node: TreeNode)
    ensures
        node@.label == node.label@,
        node@.children.len() == node.children@.len(),
        forall|i: int| 0 <= i < node.children@.len() ==> node@.children[i] == (#[trigger] node.children@[i])@,
{
}

impl TreeNode {
    /// A node without children.
    pub fn from_label(label: &str) -> (node: TreeNode)
        ensures
            node@ == (Outline { label: label@, children: Seq::empty() }),
    {
        let node = TreeNode { label: label.to_owned(), children: Vec::new() };
        assert(node@.children =~= Seq::empty());
        node
    }

    /// A node with the given children.
    pub fn new(label: &str, children: Vec<TreeNode>) -> (node: TreeNode)
        ensures
            node@ == (Outline { label: label@, children: outlines(children@) }),
    {
        let node = TreeNode { label: label.to_owned(), children };
        assert(node@.children =~= outlines(node.children@));
        node
    }
}

} // verus!
