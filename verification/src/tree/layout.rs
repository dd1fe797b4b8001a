//! Where the boxes of a tree go: the sizes and offsets of every node, as
//! plain mathematics over [`Outline`].
//!
//! All offsets are columns and rows of a character grid. Every node has a
//! rectangle of the grid for itself and everything below it, its *span*,
//! `subtree_width` columns wide and `subtree_height` rows high. The node's own
//! box sits on the top rows of the span; its children's spans stand side by
//! side below, `spacing` columns apart.

use vstd::prelude::*;
use crate::text::byte_len;
use crate::tree::tree_node::Outline;

verus! {

/// The layout of a node and of everything below it.
pub struct Layout {
    /// The lines of the label, top to bottom.
    pub labels: Seq<Seq<char>>,
    /// The columns that the node's box takes, borders included.
    pub box_width: nat,
    /// The rows that the node's box takes, borders included.
    pub box_height: nat,
    /// The column, counted from the left edge of the span, of the box's centre line.
    pub center_x: nat,
    /// The column, counted from the left edge of the span, where the first child's span begins.
    pub children_left_offset: nat,
    /// The columns of the span.
    pub subtree_width: nat,
    /// The rows of the span.
    pub subtree_height: nat,
    /// The layouts of the children, left to right.
    pub children: Seq<Layout>,
}

/// The lines of a label. A line ends at a line-feed character and at the two
/// characters `\` and `n`; a label that ends in a line break has an empty
/// last line, and the empty label is one empty line.
pub open spec fn label_lines(label: Seq<char>) -> Seq<Seq<char>>
    decreases label.len(),
{
    if label.len() == 0 {
        seq![Seq::<char>::empty()]
    } else if label.last() == '\n' {
        label_lines(label.drop_last()).push(Seq::empty())
    } else if label.len() >= 2 && label[label.len() - 2] == '\\' && label.last() == 'n' {
        label_lines(label.take(label.len() - 2)).push(Seq::empty())
    } else {
        let lines = label_lines(label.drop_last());
        lines.update(lines.len() - 1, lines.last().push(label.last()))
    }
}

/// The greatest length in bytes among `lines`; 0 if there are none.
pub open spec fn widest_line(lines: Seq<Seq<char>>) -> nat
    decreases lines.len(),
{
    if lines.len() == 0 {
        0
    } else {
        let before = widest_line(lines.drop_last());
        let last = byte_len(lines.last());
        if last > before {
            last
        } else {
            before
        }
    }
}

/// The greatest span height among `children`; 0 if there are none.
pub open spec fn tallest(children: Seq<Layout>) -> nat
    decreases children.len(),
{
    if children.len() == 0 {
        0
    } else {
        let before = tallest(children.drop_last());
        let last = children.last().subtree_height;
        if last > before {
            last
        } else {
            before
        }
    }
}

/// The column at which the span of child `i` begins, counted from where the
/// first child's span begins: the spans before it and `spacing` after each.
pub open spec fn child_start(children: Seq<Layout>, spacing: nat, i: int) -> nat
    decreases i,
{
    if i <= 0 {
        0
    } else {
        child_start(children, spacing, i - 1) + children[i - 1].subtree_width + spacing
    }
}

/// The columns that the children take together: the sum of their span widths
/// and `spacing` between each two neighbours.
pub open spec fn children_width(children: Seq<Layout>, spacing: nat) -> nat {
    if children.len() == 0 {
        0
    } else {
        child_start(children, spacing, children.len() - 1) + children.last().subtree_width
    }
}

/// The column of the centre line of child `i`, counted from where the first
/// child's span begins.
pub open spec fn child_center(children: Seq<Layout>, spacing: nat, i: int) -> nat {
    child_start(children, spacing, i) + children[i].center_x
}

/// The column of a box's centre line, counted from the box's left edge. In a
/// box of even width it is the left one of the two middle columns.
pub open spec fn center_of_box(box_width: nat) -> nat {
    ((box_width - 1) / 2) as nat
}

/// Where a box and the children below it go in their common span.
pub struct Placement {
    /// The column of the box's centre line.
    pub center_x: nat,
    /// The column at which the first child's span begins.
    pub children_left_offset: nat,
    /// The columns of the span.
    pub subtree_width: nat,
    /// The rows of the span.
    pub subtree_height: nat,
}

/// The placement of a box `box_width` columns wide and `box_height` rows high
/// over `count` children, one at least, that take `children_width` columns
/// together, the tallest of them `tallest` rows, and whose first and last
/// centre lines are on the columns `first_center` and `last_center` of those.
///
/// The box is centred midway between the two centre lines, rounded down. If
/// that puts its left edge before the first column, the children are moved
/// right until it does not. The span ends where the box or the last child
/// ends, whichever is further right. The children begin below the box, after
/// one row for the connector bar if there are two or more.
pub open spec fn place_over(
    box_width: nat,
    box_height: nat,
    first_center: nat,
    last_center: nat,
    children_width: nat,
    tallest: nat,
    count: nat,
) -> Placement {
    let own_center = center_of_box(box_width);
    let over_children = (first_center + last_center) / 2;
    let center_x = if own_center > over_children {
        own_center
    } else {
        over_children
    };
    let children_left_offset = center_x - over_children;
    let box_end = center_x - own_center + box_width;
    let children_end = children_left_offset + children_width;
    Placement {
        center_x: center_x as nat,
        children_left_offset: children_left_offset as nat,
        subtree_width: if box_end > children_end {
            box_end as nat
        } else {
            children_end as nat
        },
        subtree_height: box_height + tallest + if count > 1 {
            1nat
        } else {
            0nat
        },
    }
}

/// The layout of a node whose label has the lines `labels` and whose children
/// are laid out as `children`.
///
/// The box is four columns wider than the longest line, counted in bytes, and
/// two rows higher than the number of lines. Without children the span is the
/// box; with children, box and children are placed as [`place_over`] says.
pub open spec fn arrange(labels: Seq<Seq<char>>, children: Seq<Layout>, spacing: nat) -> Layout {
    let box_width = widest_line(labels) + 4;
    let box_height = labels.len() + 2;
    if children.len() == 0 {
        Layout {
            labels,
            box_width,
            box_height,
            center_x: center_of_box(box_width),
            children_left_offset: 0,
            subtree_width: box_width,
            subtree_height: box_height,
            children,
        }
    } else {
        let placement = place_over(
            box_width,
            box_height,
            child_center(children, spacing, 0),
            child_center(children, spacing, children.len() - 1),
            children_width(children, spacing),
            tallest(children),
            children.len(),
        );
        Layout {
            labels,
            box_width,
            box_height,
            center_x: placement.center_x,
            children_left_offset: placement.children_left_offset,
            subtree_width: placement.subtree_width,
            subtree_height: placement.subtree_height,
            children,
        }
    }
}

/// The layout of the tree `outline` with `spacing` columns between siblings.
pub open spec fn layout_of(outline: Outline, spacing: nat) -> Layout
    decreases outline,
{
    arrange(
        label_lines(outline.label),
        Seq::new(
            outline.children.len(),
            |i: int|
                if 0 <= i < outline.children.len() {
                    layout_of(outline.children[i], spacing)
                } else {
                    arbitrary()
                },
        ),
        spacing,
    )
}

/// Whether every node of `layout` is arranged over its children as
/// [`arrange`] says, with `spacing` columns between siblings.
#[verifier::opaque]
pub open spec fn arranged(layout: Layout, spacing: nat) -> bool
    decreases layout,
{
    &&& layout == arrange(layout.labels, layout.children, spacing)
    &&& forall|i: int|
        0 <= i < layout.children.len() ==> arranged(#[trigger] layout.children[i], spacing)
}

/// Whether the box of the top node of `layout` lies inside the node's span,
/// with the centre line on a column of the box.
pub open spec fn box_in_span(layout: Layout) -> bool {
    &&& 4 <= layout.box_width <= layout.subtree_width
    &&& 2 <= layout.box_height <= layout.subtree_height
    &&& center_of_box(layout.box_width) <= layout.center_x
    &&& layout.center_x - center_of_box(layout.box_width) + layout.box_width
        <= layout.subtree_width
    &&& layout.center_x < layout.subtree_width
}

/// Whether the box of every node of `layout` lies inside the node's span.
pub open spec fn boxes_in_spans(layout: Layout) -> bool
    decreases layout,
{
    &&& box_in_span(layout)
    &&& forall|i: int|
        0 <= i < layout.children.len() ==> boxes_in_spans(#[trigger] layout.children[i])
}

/// The row of a node's span on which the spans of its children begin.
pub open spec fn children_top(layout: Layout) -> nat {
    layout.box_height + if layout.children.len() > 1 {
        1nat
    } else {
        0nat
    }
}

/// A label has at least one line.
pub proof fn lemma_label_lines_len(label: Seq<char>)
    ensures
        label_lines(label).len() >= 1,
    decreases label.len(),
{
    if label.len() == 0 {
    } else if label.last() == '\n' {
        lemma_label_lines_len(label.drop_last());
    } else if label.len() >= 2 && label[label.len() - 2] == '\\' && label.last() == 'n' {
        lemma_label_lines_len(label.take(label.len() - 2));
    } else {
        lemma_label_lines_len(label.drop_last());
    }
}

/// No line of a label holds a line feed.
pub proof fn lemma_label_lines_feed_free(label: Seq<char>)
    ensures
        forall|j: int, k: int|
            0 <= j < label_lines(label).len() && 0 <= k < label_lines(label)[j].len()
                ==> #[trigger] label_lines(label)[j][k] != '\n',
    decreases label.len(),
{
    let lines = label_lines(label);
    if label.len() > 0 {
        let shorter = if label.last() != '\n' && label.len() >= 2 && label[label.len() - 2] == '\\'
            && label.last() == 'n' {
            label.take(label.len() - 2)
        } else {
            label.drop_last()
        };
        let before = label_lines(shorter);
        lemma_label_lines_feed_free(shorter);
        lemma_label_lines_len(shorter);
        assert forall|j: int, k: int|
            0 <= j < lines.len() && 0 <= k < lines[j].len() implies #[trigger] lines[j][k]
            != '\n' by {
            if j < before.len() && k < before[j].len() {
                assert(lines[j][k] == before[j][k]);
            }
        }
    }
}

/// No line is longer than the widest.
pub proof fn lemma_widest_line(lines: Seq<Seq<char>>, j: int)
    requires
        0 <= j < lines.len(),
    ensures
        byte_len(lines[j]) <= widest_line(lines),
    decreases lines.len(),
{
    if j < lines.len() - 1 {
        lemma_widest_line(lines.drop_last(), j);
    }
}

/// No child is taller than the tallest.
pub proof fn lemma_tallest(children: Seq<Layout>, i: int)
    requires
        0 <= i < children.len(),
    ensures
        children[i].subtree_height <= tallest(children),
    decreases children.len(),
{
    if i < children.len() - 1 {
        lemma_tallest(children.drop_last(), i);
    }
}

/// The sum of the span widths of the first `count` of `children`.
pub open spec fn total_width(children: Seq<Layout>, count: int) -> nat
    decreases count,
{
    if count <= 0 {
        0
    } else {
        total_width(children, count - 1) + children[count - 1].subtree_width
    }
}

/// Child `i` begins after the spans of the children before it and `spacing`
/// columns for each of them.
pub proof fn lemma_child_start_sum(children: Seq<Layout>, spacing: nat, i: int)
    requires
        0 <= i,
    ensures
        child_start(children, spacing, i) == total_width(children, i) + i * spacing,
    decreases i,
{
    if i > 0 {
        lemma_child_start_sum(children, spacing, i - 1);
        assert(i * spacing == (i - 1) * spacing + spacing) by (nonlinear_arith);
    } else {
        assert(0 * spacing == 0) by (nonlinear_arith);
    }
}

/// The children take together the sum of their span widths and `spacing`
/// columns for each but one of them.
pub proof fn lemma_children_width_sum(children: Seq<Layout>, spacing: nat)
    requires
        children.len() >= 1,
    ensures
        children_width(children, spacing) == total_width(children, children.len() as int) + (
        children.len() - 1) * spacing,
{
    lemma_child_start_sum(children, spacing, children.len() - 1);
}

/// The spans of the children follow one another, `spacing` apart.
pub proof fn lemma_child_start_ordered(children: Seq<Layout>, spacing: nat, i: int, j: int)
    requires
        0 <= i < j,
    ensures
        child_start(children, spacing, i) + children[i].subtree_width + spacing <= child_start(
            children,
            spacing,
            j,
        ),
    decreases j,
{
    if i < j - 1 {
        lemma_child_start_ordered(children, spacing, i, j - 1);
    }
}

/// The span of every child ends within the width of the children together.
pub proof fn lemma_child_within_children(children: Seq<Layout>, spacing: nat, i: int)
    requires
        0 <= i < children.len(),
    ensures
        child_start(children, spacing, i) + children[i].subtree_width <= children_width(
            children,
            spacing,
        ),
{
    if i < children.len() - 1 {
        lemma_child_start_ordered(children, spacing, i, children.len() - 1);
    }
}

/// The box of an arranged node lies inside its span, and so does every child's span.
pub proof fn lemma_arrange_contains(labels: Seq<Seq<char>>, children: Seq<Layout>, spacing: nat)
    ensures
        box_in_span(arrange(labels, children, spacing)),
        forall|i: int|
            #![trigger children[i]]
            0 <= i < children.len() ==> {
                let l = arrange(labels, children, spacing);
                &&& l.children_left_offset + child_start(children, spacing, i)
                    + children[i].subtree_width <= l.subtree_width
                &&& children_top(l) + children[i].subtree_height <= l.subtree_height
            },
{
    let l = arrange(labels, children, spacing);
    assert forall|i: int| #![trigger children[i]] 0 <= i < children.len() implies {
        &&& l.children_left_offset + child_start(children, spacing, i) + children[i].subtree_width
            <= l.subtree_width
        &&& children_top(l) + children[i].subtree_height <= l.subtree_height
    } by {
        lemma_child_within_children(children, spacing, i);
        lemma_tallest(children, i);
    }
}

/// The layout of a tree is the arrangement of its label's lines over the
/// layouts of its children.
pub proof fn lemma_layout_of_children(outline: Outline, spacing: nat, children: Seq<Layout>)
    requires
        children.len() == outline.children.len(),
        forall|i: int|
            0 <= i < children.len() ==> children[i] == layout_of(
                #[trigger] outline.children[i],
                spacing,
            ),
    ensures
        layout_of(outline, spacing) == arrange(label_lines(outline.label), children, spacing),
{
    assert(layout_of(outline, spacing).children =~= children);
}

/// A span that does not fit in `usize` is not made to fit by what stands
/// around it: the span of a node is at least as wide and as high as that of
/// each child.
pub proof fn lemma_arrange_holds_children(
    labels: Seq<Seq<char>>,
    children: Seq<Layout>,
    spacing: nat,
    i: int,
)
    requires
        0 <= i < children.len(),
    ensures
        children[i].subtree_width <= arrange(labels, children, spacing).subtree_width,
        children[i].subtree_height <= arrange(labels, children, spacing).subtree_height,
{
    lemma_arrange_contains(labels, children, spacing);
}

/// A layout made by [`layout_of`] is arranged at every node.
pub proof fn lemma_layout_arranged(outline: Outline, spacing: nat)
    ensures
        arranged(layout_of(outline, spacing), spacing),
    decreases outline,
{
    reveal(arranged);
    let l = layout_of(outline, spacing);
    assert forall|i: int| 0 <= i < l.children.len() implies arranged(
        #[trigger] l.children[i],
        spacing,
    ) by {
        lemma_layout_arranged(outline.children[i], spacing);
    }
}

/// In an arranged layout the box of every node lies inside the node's span.
pub proof fn lemma_arranged_boxes_in_spans(layout: Layout, spacing: nat)
    requires
        arranged(layout, spacing),
    ensures
        boxes_in_spans(layout),
    decreases layout,
{
    reveal(arranged);
    lemma_arrange_contains(layout.labels, layout.children, spacing);
    assert forall|i: int| 0 <= i < layout.children.len() implies boxes_in_spans(
        #[trigger] layout.children[i],
    ) by {
        lemma_arranged_boxes_in_spans(layout.children[i], spacing);
    }
}

/// At every node of a tree's layout the span is at least as wide and as high
/// as the node's box, and the centre line is a column of the span.
pub proof fn lemma_layout_boxes_in_spans(outline: Outline, spacing: nat)
    ensures
        boxes_in_spans(layout_of(outline, spacing)),
{
    lemma_layout_arranged(outline, spacing);
    lemma_arranged_boxes_in_spans(layout_of(outline, spacing), spacing);
}

} // verus!
