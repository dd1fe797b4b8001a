//! What a command asks for, and the text that answers it.

use vstd::prelude::*;
use vstd::string::StringExecFns;
use crate::parser::outline_read;
use crate::parser::parse_markdown;
use crate::tree::canvas::diagram;
use crate::tree::horizontal::listing;
use crate::tree::horizontal::print_nodes;
use crate::tree::layout::layout_of;
use crate::tree::style::BoxDrawings;
use crate::tree::style::palette;
use crate::tree::style::Style;
use crate::tree::tree_node::Outline;
use crate::tree::tree_node::outlines;
use crate::tree::vertical::DrawableTreeNode;
use crate::tree::vertical::fits;

verus! {

/// A request for the listing of an outline.
#[derive(Debug)]
pub struct HorizontalArgs {
    /// The name of the file that holds the outline, or the outline itself.
    pub input: String,
}

/// A request for the diagrams of an outline.
#[derive(Debug)]
pub struct VerticalArgs {
    /// The palette to draw with.
    pub style: Style,
    /// The name of the file that holds the outline, or the outline itself.
    pub input: String,
    /// The width in bytes to wrap labels to, if any.
    pub width: Option<usize>,
    /// The columns between the spans of siblings.
    pub spacing: usize,
}

/// What can be asked for. `V` and `H` are short for `Vertical` and `Horizontal`.
#[derive(Debug)]
pub enum Command {
    Vertical(VerticalArgs),
    V(VerticalArgs),
    Horizontal(HorizontalArgs),
    H(HorizontalArgs),
}

/// The diagrams of the first `count` of `roots`, each followed by a line feed.
pub open spec fn diagrams(roots: Seq<Outline>, style: BoxDrawings, spacing: nat, count: nat) -> Seq<
    char,
>
    decreases count,
{
    if count == 0 {
        Seq::empty()
    } else {
        diagrams(roots, style, spacing, (count - 1) as nat) + diagram(
            roots[count - 1],
            style,
            spacing,
        ) + seq!['\n']
    }
}

/// Whether the span of each of `roots` can be held in `usize` columns and rows.
pub open spec fn all_fit(roots: Seq<Outline>, spacing: nat) -> bool {
    forall|i: int| 0 <= i < roots.len() ==> fits(layout_of(#[trigger] roots[i], spacing))
}

impl HorizontalArgs {
    /// The listing of the outline that `content` describes. Labels are not wrapped.
    pub fn run(&self, content: String) -> (text: String)
        ensures
            text@ == listing(outline_read(content@, None)),
    {
        let root_nodes = parse_markdown(content, None);
        let mut text = String::new();
        print_nodes(&root_nodes, &mut text);
        proof {
            assert(text@ =~= listing(outlines(root_nodes@)));
        }
        text
    }
}

impl VerticalArgs {
    /// The diagrams of the roots of the outline that `content` describes, one
    /// after another, or `None` if the span of a root does not fit in `usize`
    /// columns and rows.
    pub fn run(&self, content: String) -> (text: Option<String>)
        ensures
            text.is_some() <==> all_fit(outline_read(content@, self.width), self.spacing as nat),
            text matches Some(drawn) ==> drawn@ == diagrams(
                outline_read(content@, self.width),
                palette(self.style),
                self.spacing as nat,
                outline_read(content@, self.width).len(),
            ),
    {
        let root_nodes = parse_markdown(content, self.width);
        let style = BoxDrawings::new(self.style);
        let ghost roots = outlines(root_nodes@);
        let ghost spacing = self.spacing as nat;
        let mut text = String::new();
        let mut i: usize = 0;
        while i < root_nodes.len()
            invariant
                i <= root_nodes.len(),
                roots == outlines(root_nodes@),
                roots == outline_read(content@, self.width),
                spacing == self.spacing as nat,
                style == palette(self.style),
                forall|k: int| 0 <= k < i ==> fits(layout_of(#[trigger] roots[k], spacing)),
                text@ == diagrams(roots, style, spacing, i as nat),
            decreases root_nodes.len() - i,
        {
            let ghost before = text@;
            proof {
                assert(roots[i as int] == root_nodes[i as int]@);
            }
            match DrawableTreeNode::try_new(&root_nodes[i], self.spacing) {
                Some(drawable) => {
                    let drawn = drawable.render(&style, self.spacing);
                    text.append(drawn.as_str());
                    text.push('\n');
                    proof {
                        assert(text@ =~= before + diagram(roots[i as int], style, spacing)
                            + seq!['\n']);
                    }
                },
                None => {
                    proof {
                        assert(!fits(layout_of(roots[i as int], spacing)));
                    }
                    return None;
                },
            }
            i += 1;
        }
        Some(text)
    }
}

impl Command {
    /// The text that answers the command, for the outline that `content`
    /// describes: its diagrams or its listing. `None` if a diagram is asked
    /// for whose span does not fit in `usize` columns and rows.
    pub fn run(&self, content: String) -> (text: Option<String>)
        ensures
            match *self {
                Command::Vertical(args) | Command::V(args) => {
                    let roots = outline_read(content@, args.width);
                    let spacing = args.spacing as nat;
                    &&& text.is_some() <==> all_fit(roots, spacing)
                    &&& text matches Some(drawn) ==> drawn@ == diagrams(
                        roots,
                        palette(args.style),
                        spacing,
                        roots.len(),
                    )
                },
                Command::Horizontal(args) | Command::H(args) => {
                    text matches Some(listed) && listed@ == listing(outline_read(content@, None))
                },
            },
    {
        match self {
            Command::Vertical(vertical_args) | Command::V(vertical_args) => vertical_args.run(
                content,
            ),
            Command::Horizontal(horizontal_args) | Command::H(horizontal_args) => Some(
                horizontal_args.run(content),
            ),
        }
    }
}

} // verus!
