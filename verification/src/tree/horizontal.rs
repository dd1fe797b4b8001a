//! Forests listed top-down: a line for every node, indented by its depth.

use vstd::prelude::*;
use vstd::string::StringExecFns;
use crate::tree::tree_node::lemma_outline_of;
use crate::tree::tree_node::Outline;
use crate::tree::tree_node::outlines;
use crate::tree::tree_node::TreeNode;

verus! {

/// What stands before the label of a node: a corner for the last of its
/// siblings, a tee for the others.
pub open spec fn branch(last: bool) -> Seq<char> {
    if last {
        seq!['└', '─', ' ']
    } else {
        seq!['├', '─', ' ']
    }
}

/// What the lines below a node begin with, after what the node's own line
/// begins with: blanks below the last of its siblings, a vertical line, which
/// leads to the next sibling, below the others.
pub open spec fn indent(last: bool) -> Seq<char> {
    if last {
        seq![' ', ' ', ' ']
    } else {
        seq!['│', ' ', ' ']
    }
}

/// The lines for the first `count` of `children` and for everything below
/// them. The line of a node is `prefix`, the branch and the node's label; it
/// is followed by the lines of the node's children, whose prefix is longer by
/// the indent.
pub open spec fn entries(children: Seq<Outline>, prefix: Seq<char>, count: nat) -> Seq<char>
    decreases children, count,
{
    if count == 0 || count > children.len() {
        Seq::empty()
    } else {
        let child = children[count - 1];
        let last = count == children.len();
        entries(children, prefix, (count - 1) as nat) + prefix + branch(last) + child.label
            + seq!['\n'] + entries(child.children, prefix + indent(last), child.children.len())
    }
}

/// The listing of a forest. A single root heads the listing with its label;
/// two or more roots are listed below a line with a dot. Of no roots nothing
/// is listed.
pub open spec fn listing(roots: Seq<Outline>) -> Seq<char> {
    if roots.len() > 1 {
        seq!['.', '\n'] + entries(roots, Seq::empty(), roots.len())
    } else if roots.len() == 1 {
        roots[0].label + seq!['\n'] + entries(
            roots[0].children,
            Seq::empty(),
            roots[0].children.len(),
        )
    } else {
        Seq::empty()
    }
}

/// Writes the lines for `children` and for everything below them.
fn print_nodes_internal(children: &Vec<TreeNode>, prefix: &str, output: &mut String)
    ensures
        final(output)@ == old(output)@ + entries(
            outlines(children@),
            prefix@,
            children.len() as nat,
        ),
    decreases children,
{
    let ghost begun = output@;
    let ghost nodes = outlines(children@);
    let mut idx: usize = 0;
    proof {
        assert(begun + entries(nodes, prefix@, 0) =~= begun);
    }
    while idx < children.len()
        invariant
            idx <= children.len(),
            nodes == outlines(children@),
            output@ == begun + entries(nodes, prefix@, idx as nat),
        decreases children.len() - idx,
    {
        let child = &children[idx];
        let last = idx == children.len() - 1;
        let ghost written = output@;
        proof {
            lemma_outline_of(*child);
            reveal_strlit("└─ ");
            reveal_strlit("├─ ");
            reveal_strlit("   ");
            reveal_strlit("│  ");
            assert("└─ "@ =~= branch(true));
            assert("├─ "@ =~= branch(false));
            assert("   "@ =~= indent(true));
            assert("│  "@ =~= indent(false));
        }
        output.append(prefix);
        output.append(
            if last {
                "└─ "
            } else {
                "├─ "
            },
        );
        output.append(child.label.as_str());
        output.push('\n');
        let deeper = String::from_str(prefix).concat(
            if last {
                "   "
            } else {
                "│  "
            },
        );
        print_nodes_internal(&child.children, deeper.as_str(), output);
        proof {
            assert(nodes[idx as int] == child@);
            assert(child@.children =~= outlines(child.children@));
            assert(output@ =~= begun + entries(nodes, prefix@, (idx + 1) as nat)) by {
                assert(output@ =~= written + prefix@ + branch(last) + child@.label + seq!['\n']
                    + entries(child@.children, prefix@ + indent(last), child@.children.len()));
            }
        }
        idx += 1;
    }
}

/// Writes the listing of the forest `roots` to the end of `output`.
pub fn print_nodes(roots: &Vec<TreeNode>, output: &mut String)
    ensures
        final(output)@ == old(output)@ + listing(outlines(roots@)),
{
    let ghost begun = output@;
    if roots.len() > 1 {
        // Two or more roots hang from a dot.
        output.push('.');
        output.push('\n');
        print_nodes_internal(roots, "", output);
        proof {
            reveal_strlit("");
            assert(""@ =~= Seq::<char>::empty());
            assert(output@ =~= begun + listing(outlines(roots@)));
        }
    } else if roots.len() == 1 {
        let root = &roots[0];
        proof {
            lemma_outline_of(*root);
            assert(outlines(roots@)[0] == root@);
            assert(root@.children =~= outlines(root.children@));
        }
        output.append(root.label.as_str());
        output.push('\n');
        print_nodes_internal(&root.children, "", output);
        proof {
            reveal_strlit("");
            assert(""@ =~= Seq::<char>::empty());
            assert(output@ =~= begun + listing(outlines(roots@)));
        }
    } else {
        proof {
            assert(output@ =~= begun + listing(outlines(roots@)));
        }
    }
}

} // verus!
