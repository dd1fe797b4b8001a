//! Trees drawn top-down: every node a box, a parent centred over its children.
//!
//! A tree is laid out first ([`DrawableTreeNode::new`]) and then drawn on a
//! grid of characters ([`DrawableTreeNode::render`]). Both go down the tree by
//! recursion, a call for every level.

use vstd::prelude::*;
use crate::text::char_rows;
use crate::text::chars_of;
use crate::text::utf8_len;
use crate::tree::canvas::bar_run;
use crate::tree::canvas::below;
use crate::tree::canvas::blank_canvas;
use crate::tree::canvas::box_left;
use crate::tree::canvas::canvas;
use crate::tree::canvas::child_left;
use crate::tree::canvas::diagram;
use crate::tree::canvas::dot;
use crate::tree::canvas::draw_frame;
use crate::tree::canvas::draw_label;
use crate::tree::canvas::frame;
use crate::tree::canvas::gap;
use crate::tree::canvas::holds;
use crate::tree::canvas::join_lines;
use crate::tree::canvas::labels;
use crate::tree::canvas::laid_over;
use crate::tree::canvas::lemma_bar_at_stem;
use crate::tree::canvas::lemma_bar_between;
use crate::tree::canvas::lemma_below_begin;
use crate::tree::canvas::lemma_below_none;
use crate::tree::canvas::lemma_below_step;
use crate::tree::canvas::lemma_children_in_span;
use crate::tree::canvas::lemma_holds_cell;
use crate::tree::canvas::lemma_holds_inside;
use crate::tree::canvas::lemma_ink_assembled;
use crate::tree::canvas::lemma_label_in_box;
use crate::tree::canvas::lemma_laid_holds;
use crate::tree::canvas::lemma_laid_nothing;
use crate::tree::canvas::lemma_laid_same;
use crate::tree::canvas::lemma_laid_then;
use crate::tree::canvas::lemma_stems;
use crate::tree::canvas::node_ink;
use crate::tree::canvas::nothing;
use crate::tree::canvas::set_cell;
use crate::tree::canvas::shifted;
use crate::tree::canvas::stacked;
use crate::tree::canvas::stem;
use crate::tree::canvas::text_of;
use crate::tree::canvas::top_ink;
use crate::tree::canvas::written;
use crate::tree::layout::arrange;
use crate::tree::layout::arranged;
use crate::tree::layout::box_in_span;
use crate::tree::layout::child_center;
use crate::tree::layout::child_start;
use crate::tree::layout::children_top;
use crate::tree::layout::children_width;
use crate::tree::layout::label_lines;
use crate::tree::layout::Layout;
use crate::tree::layout::layout_of;
use crate::tree::layout::lemma_arrange_contains;
use crate::tree::layout::lemma_arrange_holds_children;
use crate::tree::layout::lemma_arranged_boxes_in_spans;
use crate::tree::layout::lemma_child_start_ordered;
use crate::tree::layout::lemma_child_within_children;
use crate::tree::layout::lemma_layout_arranged;
use crate::tree::layout::lemma_layout_of_children;
use crate::tree::layout::lemma_widest_line;
use crate::tree::layout::place_over;
use crate::tree::layout::tallest;
use crate::tree::layout::widest_line;
use crate::tree::style::BoxDrawings;
use crate::tree::tree_node::lemma_outline_of;
use crate::tree::tree_node::TreeNode;

verus! {

/// A cell of the grid: column `x` of row `y`.
#[derive(Debug, PartialEq, Eq, Structural)]
pub struct Point2D {
    pub x: usize,
    pub y: usize,
}

/// `Zero::zero` of `num`, for `usize`, is 0.
#[verifier::external_body]
fn zero_coordinate() -> (z: usize)
    ensures
        z == 0,
{
    num::Zero::zero()
}

impl Point2D {
    /// The top-left cell.
    pub fn zero() -> (origin: Point2D)
        ensures
            origin.x == 0,
            origin.y == 0,
    {
        Point2D { x: zero_coordinate(), y: zero_coordinate() }
    }
}

/// A tree laid out for drawing: every node with the size of its box and of
/// its span, and with the place of its box and of its children in the span.
#[derive(Debug)]
pub struct DrawableTreeNode {
    /// The column of the box's centre line, counted from the left edge of the span.
    pub center_x: usize,
    /// The columns of the node's box.
    pub width: usize,
    /// The rows of the node's box.
    pub height: usize,
    /// The columns that the node and everything below it take.
    pub overall_width: usize,
    /// The rows that the node and everything below it take.
    pub overall_height: usize,
    /// The lines of the label.
    pub labels: Vec<Vec<char>>,
    /// The column at which the first child's span begins, counted from the
    /// left edge of the span.
    pub children_left_offset: usize,
    /// The children, left to right.
    pub children: Vec<DrawableTreeNode>,
}

/// The layout that `node` holds.
pub open spec fn layout_held(node: DrawableTreeNode) -> Layout
    decreases node,
{
    Layout {
        labels: char_rows(node.labels@),
        box_width: node.width as nat,
        box_height: node.height as nat,
        center_x: node.center_x as nat,
        children_left_offset: node.children_left_offset as nat,
        subtree_width: node.overall_width as nat,
        subtree_height: node.overall_height as nat,
        children: Seq::new(
            node.children@.len(),
            |i: int|
                if 0 <= i < node.children@.len() {
                    layout_held(node.children@[i])
                } else {
                    arbitrary()
                },
        ),
    }
}

impl View for DrawableTreeNode {
    type V = Layout;

    open spec fn view(&self) -> Layout {
        layout_held(*self)
    }
}

/// Whether the span of `layout` can be held in `usize` columns and rows.
pub open spec fn fits(layout: Layout) -> bool {
    layout.subtree_width <= usize::MAX && layout.subtree_height <= usize::MAX
}

/// The layouts that `nodes` hold.
pub open spec fn layouts_held(nodes: Seq<DrawableTreeNode>) -> Seq<Layout> {
    Seq::new(nodes.len(), |i: int| nodes[i]@)
}

/// The lines of `label`.
fn split_label(label: &str) -> (lines: Vec<Vec<char>>)
    ensures
        char_rows(lines@) == label_lines(label@),
{
    let chars = chars_of(label);
    let mut lines: Vec<Vec<char>> = Vec::new();
    let mut current: Vec<char> = Vec::new();
    let mut i: usize = 0;
    while i < chars.len()
        invariant
            i <= chars.len(),
            chars@ == label@,
            label_lines(chars@.take(i as int)) == char_rows(lines@).push(current@),
            0 < i < chars.len() ==> !(chars[i - 1] == '\\' && chars[i as int] == 'n'),
        decreases chars.len() - i,
    {
        let c = chars[i];
        let ghost before = chars@.take(i as int);
        let ghost rows = char_rows(lines@);
        if c == '\n' {
            proof {
                assert(chars@.take(i + 1).drop_last() =~= before);
                assert(char_rows(lines@.push(current)) =~= rows.push(current@));
            }
            lines.push(current);
            current = Vec::new();
            i += 1;
        } else if c == '\\' && i + 1 < chars.len() && chars[i + 1] == 'n' {
            proof {
                let t = chars@.take(i + 2);
                assert(t.take(t.len() - 2) =~= before);
                assert(char_rows(lines@.push(current)) =~= rows.push(current@));
            }
            lines.push(current);
            current = Vec::new();
            i += 2;
        } else {
            proof {
                let t = chars@.take(i + 1);
                assert(t.drop_last() =~= before);
                assert(rows.push(current@).update(rows.len() as int, current@.push(c)) =~= rows.push(
                    current@.push(c),
                ));
            }
            current.push(c);
            i += 1;
        }
    }
    proof {
        assert(chars@.take(i as int) =~= chars@);
        assert(char_rows(lines@.push(current)) =~= char_rows(lines@).push(current@));
    }
    lines.push(current);
    lines
}

/// The length in bytes of the longest of `lines`, or `None` if it does not
/// fit in `usize`.
fn widest(lines: &Vec<Vec<char>>) -> (width: Option<usize>)
    ensures
        match width {
            Some(w) => w == widest_line(char_rows(lines@)),
            None => widest_line(char_rows(lines@)) > usize::MAX,
        },
{
    let ghost rows = char_rows(lines@);
    let mut width: usize = 0;
    let mut j: usize = 0;
    while j < lines.len()
        invariant
            j <= lines.len(),
            rows == char_rows(lines@),
            width == widest_line(rows.take(j as int)),
        decreases lines.len() - j,
    {
        proof {
            assert(rows.take(j + 1).drop_last() =~= rows.take(j as int));
        }
        match utf8_len(&lines[j]) {
            Some(len) => {
                if len > width {
                    width = len;
                }
            },
            None => {
                proof {
                    lemma_widest_line(rows, j as int);
                }
                return None;
            },
        }
        j += 1;
    }
    assert(rows.take(j as int) =~= rows);
    Some(width)
}

/// The height of the tallest span among `children`; 0 if there are none.
fn tallest_child(children: &Vec<DrawableTreeNode>) -> (height: usize)
    ensures
        height == tallest(layouts_held(children@)),
{
    let ghost kids = layouts_held(children@);
    let mut height: usize = 0;
    let mut i: usize = 0;
    while i < children.len()
        invariant
            i <= children.len(),
            kids == layouts_held(children@),
            height == tallest(kids.take(i as int)),
        decreases children.len() - i,
    {
        proof {
            assert(kids.take(i + 1).drop_last() =~= kids.take(i as int));
        }
        if children[i].overall_height > height {
            height = children[i].overall_height;
        }
        i += 1;
    }
    assert(kids.take(i as int) =~= kids);
    height
}

/// The columns that `children` take together, or `None` if they do not fit
/// in `usize`.
fn children_span(children: &Vec<DrawableTreeNode>, horizontal_spacing: usize) -> (width: Option<
    usize,
>)
    ensures
        match width {
            Some(w) => w == children_width(layouts_held(children@), horizontal_spacing as nat),
            None => children_width(layouts_held(children@), horizontal_spacing as nat)
                > usize::MAX,
        },
{
    let ghost kids = layouts_held(children@);
    let ghost spacing = horizontal_spacing as nat;
    let mut width: usize = 0;
    let mut i: usize = 0;
    proof {
        assert forall|k: int| 0 <= k < kids.len() implies child_start(kids, spacing, k)
            + #[trigger] kids[k].subtree_width <= children_width(kids, spacing) by {
            lemma_child_within_children(kids, spacing, k);
        }
    }
    while i < children.len()
        invariant
            i <= children.len(),
            kids == layouts_held(children@),
            spacing == horizontal_spacing as nat,
            i == 0 ==> width == 0,
            i > 0 ==> width == child_start(kids, spacing, i - 1) + kids[i - 1].subtree_width,
            forall|k: int|
                0 <= k < kids.len() ==> child_start(kids, spacing, k)
                    + #[trigger] kids[k].subtree_width <= children_width(kids, spacing),
        decreases children.len() - i,
    {
        assert(kids[i as int].subtree_width == children[i as int].overall_width);
        if i > 0 {
            match width.checked_add(horizontal_spacing) {
                Some(sum) => {
                    width = sum;
                },
                None => {
                    return None;
                },
            }
        }
        match width.checked_add(children[i].overall_width) {
            Some(sum) => {
                width = sum;
            },
            None => {
                return None;
            },
        }
        i += 1;
    }
    Some(width)
}

/// The width and the height of the box around `labels`, or `None` if one of
/// them does not fit in `usize`.
fn box_size(labels: &Vec<Vec<char>>) -> (size: Option<(usize, usize)>)
    ensures
        match size {
            Some((width, height)) => {
                &&& width == widest_line(char_rows(labels@)) + 4
                &&& height == labels.len() + 2
            },
            None => widest_line(char_rows(labels@)) + 4 > usize::MAX || labels.len() + 2
                > usize::MAX,
        },
{
    // A space and a border on both sides of the longest line; a border above
    // and below the lines.
    let longest = match widest(labels) {
        Some(w) => w,
        None => {
            return None;
        },
    };
    let width = match longest.checked_add(4) {
        Some(w) => w,
        None => {
            return None;
        },
    };
    match labels.len().checked_add(2) {
        Some(height) => Some((width, height)),
        None => None,
    }
}

/// The placement of a box over its children, or `None` if the span does not
/// fit in `usize` columns and rows. `first_center` is the centre line of the
/// first child in its span; `last_center` and `last_width` are the centre line
/// and the width of the last child's span.
fn place(
    node_width: usize,
    node_height: usize,
    children_width: usize,
    children_height: usize,
    first_center: usize,
    last_center: usize,
    last_width: usize,
    count: usize,
) -> (placed: Option<(usize, usize, usize, usize)>)
    requires
        node_width >= 4,
        count >= 1,
        1 <= first_center,
        last_center < last_width,
        first_center + (last_width - last_center) <= children_width,
    ensures
        ({
            let placement = place_over(
                node_width as nat,
                node_height as nat,
                first_center as nat,
                (children_width - (last_width - last_center)) as nat,
                children_width as nat,
                children_height as nat,
                count as nat,
            );
            match placed {
                Some((center_x, offset, width, height)) => {
                    &&& center_x == placement.center_x
                    &&& offset == placement.children_left_offset
                    &&& width == placement.subtree_width
                    &&& height == placement.subtree_height
                },
                None => placement.subtree_width > usize::MAX || placement.subtree_height
                    > usize::MAX,
            }
        }),
{
    // In a box of even width the centre is the left one of the two middle
    // columns.
    let center_of_current_box = (node_width - 1) / 2;
    // The bar that joins the children runs from the centre of the first to
    // the centre of the last.
    let last_child_right_buffer = last_width - last_center;
    let connection_bar_width = children_width - (first_center - 1) - last_child_right_buffer;
    let center_of_children = (first_center - 1) + (connection_bar_width + 1) / 2;
    let overall_center = if center_of_current_box > center_of_children {
        center_of_current_box
    } else {
        center_of_children
    };
    let children_left_offset = overall_center - center_of_children;
    let current_node_right_buffer = node_width / 2;
    let connection_bar_right_buffer = connection_bar_width / 2;
    let box_end = match overall_center.checked_add(current_node_right_buffer + 1) {
        Some(end) => end,
        None => {
            return None;
        },
    };
    let children_reach = connection_bar_right_buffer + last_child_right_buffer;
    let children_end = match overall_center.checked_add(children_reach) {
        Some(end) => end,
        None => {
            return None;
        },
    };
    let overall_width = if box_end > children_end {
        box_end
    } else {
        children_end
    };
    let below = match node_height.checked_add(children_height) {
        Some(h) => h,
        None => {
            return None;
        },
    };
    // One child hangs directly under its parent; two or more hang from a bar
    // that takes a row of its own.
    let overall_height = if count == 1 {
        below
    } else {
        match below.checked_add(1) {
            Some(h) => h,
            None => {
                return None;
            },
        }
    };
    Some((overall_center, children_left_offset, overall_width, overall_height))
}

impl DrawableTreeNode {
    /// Whether every node is arranged over its children as [`arrange`] says,
    /// with `horizontal_spacing` columns between siblings.
    pub open spec fn well_formed(&self, horizontal_spacing: usize) -> bool {
        arranged(self@, horizontal_spacing as nat)
    }

    /// The node with the label lines `labels` over `children`, or `None` if
    /// its span does not fit in `usize` columns and rows.
    fn arrange_node(
        labels: Vec<Vec<char>>,
        children: Vec<DrawableTreeNode>,
        horizontal_spacing: usize,
    ) -> (node: Option<DrawableTreeNode>)
        requires
            forall|i: int|
                0 <= i < children.len() ==> box_in_span(#[trigger] layouts_held(children@)[i]),
        ensures
            node.is_some() <==> fits(
                arrange(char_rows(labels@), layouts_held(children@), horizontal_spacing as nat),
            ),
            node matches Some(d) ==> d@ == arrange(
                char_rows(labels@),
                layouts_held(children@),
                horizontal_spacing as nat,
            ),
    {
        let ghost lines = char_rows(labels@);
        let ghost kids = layouts_held(children@);
        let ghost spacing = horizontal_spacing as nat;
        proof {
            lemma_arrange_contains(lines, kids, spacing);
        }
        let (node_width, node_height) = match box_size(&labels) {
            Some(size) => size,
            None => {
                return None;
            },
        };
        let count = children.len();
        if count == 0 {
            let node = DrawableTreeNode {
                center_x: (node_width - 1) / 2,
                width: node_width,
                height: node_height,
                overall_width: node_width,
                overall_height: node_height,
                labels,
                children_left_offset: 0,
                children,
            };
            proof {
                assert(node@.children =~= kids);
            }
            return Some(node);
        }
        let children_width = match children_span(&children, horizontal_spacing) {
            Some(w) => w,
            None => {
                return None;
            },
        };
        let children_height = tallest_child(&children);
        let first_center = children[0].center_x;
        let last_center = children[count - 1].center_x;
        let last_width = children[count - 1].overall_width;
        proof {
            assert(box_in_span(kids[0]) && box_in_span(kids[count - 1]));
            assert(kids[0].center_x == first_center);
            assert(kids[count - 1].center_x == last_center);
            assert(kids[count - 1].subtree_width == last_width);
            if count > 1 {
                lemma_child_start_ordered(kids, spacing, 0, count - 1);
            }
            assert(child_center(kids, spacing, 0) == first_center);
            assert(child_center(kids, spacing, count - 1) == children_width - (last_width
                - last_center));
        }
        match place(
            node_width,
            node_height,
            children_width,
            children_height,
            first_center,
            last_center,
            last_width,
            count,
        ) {
            Some((center_x, children_left_offset, overall_width, overall_height)) => {
                let node = DrawableTreeNode {
                    center_x,
                    width: node_width,
                    height: node_height,
                    overall_width,
                    overall_height,
                    labels,
                    children_left_offset,
                    children,
                };
                proof {
                    assert(node@.children =~= kids);
                }
                Some(node)
            },
            None => None,
        }
    }

    /// The layout of the tree `node` with `horizontal_spacing` columns between
    /// siblings, or `None` if its span does not fit in `usize` columns and rows.
    pub fn try_new(node: &TreeNode, horizontal_spacing: usize) -> (drawable: Option<
        DrawableTreeNode,
    >)
        ensures
            drawable.is_some() <==> fits(layout_of(node@, horizontal_spacing as nat)),
            drawable matches Some(d) ==> {
                &&& d@ == layout_of(node@, horizontal_spacing as nat)
                &&& d.well_formed(horizontal_spacing)
            },
        decreases node,
    {
        let ghost spacing = horizontal_spacing as nat;
        let ghost lines = label_lines(node@.label);
        let ghost kids = Seq::new(
            node@.children.len(),
            |i: int| layout_of(node@.children[i], spacing),
        );
        proof {
            lemma_outline_of(*node);
            lemma_layout_of_children(node@, spacing, kids);
            lemma_layout_arranged(node@, spacing);
        }
        let labels = split_label(node.label.as_str());
        let mut children: Vec<DrawableTreeNode> = Vec::new();
        let mut i: usize = 0;
        while i < node.children.len()
            invariant
                i <= node.children.len(),
                children.len() == i,
                spacing == horizontal_spacing as nat,
                kids.len() == node.children.len(),
                forall|k: int|
                    0 <= k < kids.len() ==> #[trigger] kids[k] == layout_of(
                        node.children[k]@,
                        spacing,
                    ),
                forall|k: int| 0 <= k < i ==> (#[trigger] children[k])@ == kids[k],
                layout_of(node@, spacing) == arrange(lines, kids, spacing),
            decreases node.children.len() - i,
        {
            match DrawableTreeNode::try_new(&node.children[i], horizontal_spacing) {
                Some(child) => {
                    children.push(child);
                },
                None => {
                    proof {
                        assert(!fits(kids[i as int]));
                        lemma_arrange_holds_children(lines, kids, spacing, i as int);
                    }
                    return None;
                },
            }
            i += 1;
        }
        proof {
            assert(layouts_held(children@) =~= kids);
            assert forall|k: int| 0 <= k < children.len() implies box_in_span(
                #[trigger] layouts_held(children@)[k],
            ) by {
                lemma_layout_arranged(node.children[k]@, spacing);
                lemma_arranged_boxes_in_spans(kids[k], spacing);
            }
        }
        DrawableTreeNode::arrange_node(labels, children, horizontal_spacing)
    }

    /// The layout of the tree `node` with `horizontal_spacing` columns between
    /// siblings.
    pub fn new(node: &TreeNode, horizontal_spacing: usize) -> (drawable: DrawableTreeNode)
        requires
            fits(layout_of(node@, horizontal_spacing as nat)),
        ensures
            drawable@ == layout_of(node@, horizontal_spacing as nat),
            drawable.well_formed(horizontal_spacing),
    {
        match DrawableTreeNode::try_new(node, horizontal_spacing) {
            Some(drawable) => drawable,
            None => vstd::pervasive::unreached(),
        }
    }

    /// The diagram of the tree as text, drawn with `style`.
    /// `horizontal_spacing` is the spacing that the tree was laid out with.
    pub fn render(&self, style: &BoxDrawings, horizontal_spacing: usize) -> (text: String)
        requires
            self.well_formed(horizontal_spacing),
        ensures
            text@ == join_lines(canvas(self@, *style, horizontal_spacing as nat)),
    {
        let mut grid = blank_canvas(self.overall_width, self.overall_height);
        let ghost blank = grid@;
        proof {
            reveal(holds);
        }
        self.render_internal(&mut grid, &Point2D { x: 0, y: 0 }, style, horizontal_spacing);
        proof {
            reveal(laid_over);
            reveal(holds);
            let rows = char_rows(grid@);
            let picture = canvas(self@, *style, horizontal_spacing as nat);
            assert(rows.len() == picture.len());
            assert forall|y: int| 0 <= y < rows.len() implies rows[y] == picture[y] by {
                assert(grid@[y].len() == blank[y].len());
                assert forall|x: int| 0 <= x < rows[y].len() implies rows[y][x] == picture[y][x] by {
                    assert(grid@[y]@[x] == rows[y][x]);
                    assert(blank[y]@[x] == ' ');
                }
                assert(rows[y] =~= picture[y]);
            }
            assert(rows =~= picture);
        }
        text_of(&grid)
    }

    /// Draws the node and everything below it with the top-left corner of its
    /// span on the cell `origin`.
    fn render_internal(
        &self,
        buffer: &mut Vec<Vec<char>>,
        origin: &Point2D,
        style: &BoxDrawings,
        horizontal_spacing: usize,
    )
        requires
            self.well_formed(horizontal_spacing),
            holds(
                old(buffer)@,
                origin.x as int,
                origin.y as int,
                self.overall_width as int,
                self.overall_height as int,
            ),
        ensures
            laid_over(
                old(buffer)@,
                final(buffer)@,
                shifted(
                    node_ink(
                        self@,
                        *style,
                        horizontal_spacing as nat,
                        origin.x != 0 || origin.y != 0,
                    ),
                    origin.x as int,
                    origin.y as int,
                ),
            ),
        decreases self, 1nat,
    {
        let ghost layout = self@;
        let ghost spacing = horizontal_spacing as nat;
        let ghost before = buffer@;
        let ghost ox = origin.x as int;
        let ghost oy = origin.y as int;
        let ghost span_width = self.overall_width as int;
        let ghost span_height = self.overall_height as int;
        proof {
            lemma_children_in_span(layout, spacing);
            lemma_holds_cell(before, ox, oy, span_width, span_height, oy);
            lemma_holds_inside(
                before,
                ox,
                oy,
                span_width,
                span_height,
                ox + box_left(layout),
                oy,
                self.width as int,
                self.height as int,
            );
        }
        let left = origin.x + self.center_x - (self.width - 1) / 2;
        draw_frame(buffer, left, origin.y, self.width, self.height, style);
        let ghost framed = buffer@;
        let ghost frame_drawn = shifted(
            frame(*style, self.width as int, self.height as int),
            left as int,
            oy,
        );
        proof {
            lemma_laid_holds(before, framed, frame_drawn, ox, oy, span_width, span_height);
            lemma_laid_nothing(framed);
            assert forall|x: int, y: int|
                nothing()(x, y) == #[trigger] shifted(labels(layout, 0), ox, oy)(x, y) by {}
            lemma_laid_same(framed, framed, nothing(), shifted(labels(layout, 0), ox, oy));
        }

        // The label, a line on each row of the box.
        let mut row_index: usize = 0;
        while row_index < self.labels.len()
            invariant
                row_index <= self.labels.len(),
                layout == self@,
                spacing == horizontal_spacing as nat,
                ox == origin.x,
                oy == origin.y,
                span_width == self.overall_width,
                span_height == self.overall_height,
                arranged(layout, spacing),
                box_in_span(layout),
                layout.box_height == layout.labels.len() + 2,
                left == origin.x + box_left(layout),
                holds(framed, ox, oy, span_width, span_height),
                laid_over(framed, buffer@, shifted(labels(layout, row_index as int), ox, oy)),
            decreases self.labels.len() - row_index,
        {
            let label = &self.labels[row_index];
            let ghost reached = buffer@;
            let ghost so_far = shifted(labels(layout, row_index as int), ox, oy);
            proof {
                lemma_label_in_box(layout, spacing, row_index as int);
                assert(layout.labels[row_index as int] == label@);
                lemma_laid_holds(framed, reached, so_far, ox, oy, span_width, span_height);
                lemma_holds_cell(reached, ox, oy, span_width, span_height, oy + row_index + 1);
                assert(reached.len() == buffer.len());
            }
            let label_len = match utf8_len(label) {
                Some(len) => len,
                None => vstd::pervasive::unreached(),
            };
            let label_start = left + (self.width - label_len) / 2;
            draw_label(buffer, label_start, origin.y + row_index + 1, label);
            proof {
                let line = shifted(written(label@), label_start as int, oy + row_index + 1);
                let next = shifted(labels(layout, row_index + 1), ox, oy);
                lemma_laid_then(framed, reached, buffer@, so_far, line);
                assert forall|x: int, y: int| stacked(line, so_far)(x, y) == #[trigger] next(
                    x,
                    y,
                ) by {}
                lemma_laid_same(framed, buffer@, stacked(line, so_far), next);
            }
            row_index += 1;
        }
        let ghost labelled = buffer@;
        let ghost labels_drawn = shifted(labels(layout, layout.labels.len() as int), ox, oy);

        // Where the line from the parent arrives.
        let ghost attached = origin.x != 0 || origin.y != 0;
        let ghost top_drawn = shifted(top_ink(layout, *style, attached), ox, oy);
        proof {
            lemma_laid_holds(framed, labelled, labels_drawn, ox, oy, span_width, span_height);
            lemma_holds_cell(labelled, ox, oy, span_width, span_height, oy);
        }
        if *origin != Point2D::zero() {
            let glyph = match style.top_connection {
                Some(glyph) => glyph,
                None => style.up_and_horizontal,
            };
            set_cell(buffer, origin.x + self.center_x, origin.y, glyph);
            proof {
                let drawn = dot(ox + layout.center_x, oy, glyph);
                assert forall|x: int, y: int| drawn(x, y) == #[trigger] top_drawn(x, y) by {}
                lemma_laid_same(labelled, buffer@, drawn, top_drawn);
            }
        } else {
            proof {
                lemma_laid_nothing(labelled);
                assert forall|x: int, y: int| nothing()(x, y) == #[trigger] top_drawn(x, y) by {}
                lemma_laid_same(labelled, labelled, nothing(), top_drawn);
            }
        }
        let ghost topped = buffer@;
        proof {
            lemma_laid_holds(labelled, topped, top_drawn, ox, oy, span_width, span_height);
        }

        self.render_children(buffer, origin, style, horizontal_spacing);

        proof {
            let below_drawn = shifted(
                below(layout, *style, spacing, layout.children.len()),
                ox,
                oy,
            );
            let whole = shifted(node_ink(layout, *style, spacing, attached), ox, oy);
            lemma_laid_then(before, framed, labelled, frame_drawn, labels_drawn);
            lemma_laid_then(before, labelled, topped, stacked(labels_drawn, frame_drawn), top_drawn);
            lemma_laid_then(
                before,
                topped,
                buffer@,
                stacked(top_drawn, stacked(labels_drawn, frame_drawn)),
                below_drawn,
            );
            let layers = stacked(
                below_drawn,
                stacked(top_drawn, stacked(labels_drawn, frame_drawn)),
            );
            assert forall|x: int, y: int| layers(x, y) == #[trigger] whole(x, y) by {
                lemma_ink_assembled(layout, *style, spacing, attached, x - ox, y - oy);
            }
            lemma_laid_same(before, buffer@, layers, whole);
        }
    }

    /// Draws what hangs below the node's box: the bottom connector, the
    /// children and the bar that joins them.
    fn render_children(
        &self,
        buffer: &mut Vec<Vec<char>>,
        origin: &Point2D,
        style: &BoxDrawings,
        horizontal_spacing: usize,
    )
        requires
            self.well_formed(horizontal_spacing),
            holds(
                old(buffer)@,
                origin.x as int,
                origin.y as int,
                self.overall_width as int,
                self.overall_height as int,
            ),
        ensures
            laid_over(
                old(buffer)@,
                final(buffer)@,
                shifted(
                    below(self@, *style, horizontal_spacing as nat, self@.children.len()),
                    origin.x as int,
                    origin.y as int,
                ),
            ),
        decreases self, 0nat,
    {
        let ghost layout = self@;
        let ghost spacing = horizontal_spacing as nat;
        let ghost before = buffer@;
        let ghost ox = origin.x as int;
        let ghost oy = origin.y as int;
        let ghost span_width = self.overall_width as int;
        let ghost span_height = self.overall_height as int;
        let count = self.children.len();
        proof {
            lemma_children_in_span(layout, spacing);
            assert(layout.children.len() == count);
        }
        if count == 0 {
            proof {
                let drawn = shifted(below(layout, *style, spacing, 0), ox, oy);
                lemma_laid_nothing(before);
                assert forall|x: int, y: int| nothing()(x, y) == #[trigger] drawn(x, y) by {
                    lemma_below_none(layout, *style, spacing, 0, x - ox, y - oy);
                }
                lemma_laid_same(before, before, nothing(), drawn);
            }
        } else {
            proof {
                assert(box_in_span(layout.children[0]));
                lemma_holds_cell(before, ox, oy, span_width, span_height, oy + self.height - 1);
                lemma_holds_cell(
                    before,
                    ox,
                    oy,
                    span_width,
                    span_height,
                    oy + children_top(layout),
                );
                assert(before.len() == buffer.len());
            }
            // Where the line to the children leaves.
            let glyph = match style.bottom_connection {
                Some(glyph) => glyph,
                None => style.down_and_horizontal,
            };
            set_cell(buffer, origin.x + self.center_x, origin.y + self.height - 1, glyph);
            proof {
                let drawn = dot(ox + layout.center_x, oy + layout.box_height - 1, glyph);
                let begun = shifted(below(layout, *style, spacing, 0), ox, oy);
                assert forall|x: int, y: int| drawn(x, y) == #[trigger] begun(x, y) by {
                    lemma_below_begin(layout, *style, spacing, x - ox, y - oy);
                }
                lemma_laid_same(before, buffer@, drawn, begun);
            }

            // One child hangs directly under its parent; two or more hang
            // from a bar that takes a row of its own.
            let child_origin_y = if count > 1 {
                origin.y + self.height + 1
            } else {
                origin.y + self.height
            };
            let mut child_origin = Point2D {
                x: origin.x + self.children_left_offset,
                y: child_origin_y,
            };
            let mut child_id: usize = 0;
            while child_id < count
                invariant
                    child_id <= count,
                    count == self.children.len(),
                    layout == self@,
                    spacing == horizontal_spacing as nat,
                    ox == origin.x,
                    oy == origin.y,
                    span_width == self.overall_width,
                    span_height == self.overall_height,
                    arranged(layout, spacing),
                    child_id < count ==> child_origin.x == origin.x + child_left(
                        layout,
                        spacing,
                        child_id as int,
                    ),
                    child_origin.y == origin.y + children_top(layout),
                    holds(before, ox, oy, span_width, span_height),
                    laid_over(
                        before,
                        buffer@,
                        shifted(below(layout, *style, spacing, child_id as nat), ox, oy),
                    ),
                decreases count - child_id,
            {
                let child = &self.children[child_id];
                let ghost reached = buffer@;
                let ghost so_far = shifted(below(layout, *style, spacing, child_id as nat), ox, oy);
                let ghost cx = child_origin.x as int;
                let ghost cy = child_origin.y as int;
                proof {
                    lemma_children_in_span(layout, spacing);
                    assert(layout.children[child_id as int] == child@);
                    lemma_laid_holds(before, reached, so_far, ox, oy, span_width, span_height);
                    lemma_holds_inside(
                        reached,
                        ox,
                        oy,
                        span_width,
                        span_height,
                        cx,
                        cy,
                        child.overall_width as int,
                        child.overall_height as int,
                    );
                }
                child.render_internal(buffer, &child_origin, style, horizontal_spacing);
                let ghost hung = buffer@;
                let ghost child_drawn = shifted(node_ink(child@, *style, spacing, true), cx, cy);
                let ghost bar_drawn = if child_id + 1 < count {
                    shifted(gap(layout, *style, spacing, child_id as int), ox, oy)
                } else {
                    nothing()
                };
                if child_id != count - 1 {
                    proof {
                        lemma_laid_holds(reached, hung, child_drawn, ox, oy, span_width, span_height);
                        lemma_holds_cell(hung, ox, oy, span_width, span_height, oy);
                        assert(box_in_span(layout.children[child_id + 1]));
                    }
                    self.render_connector(
                        buffer,
                        origin,
                        style,
                        horizontal_spacing,
                        child_id,
                        child_origin.x,
                    );
                    child_origin.x += child.overall_width + horizontal_spacing;
                } else {
                    proof {
                        lemma_laid_nothing(hung);
                    }
                }
                proof {
                    let next = shifted(below(layout, *style, spacing, (child_id + 1) as nat), ox, oy);
                    lemma_laid_then(before, reached, hung, so_far, child_drawn);
                    lemma_laid_then(before, hung, buffer@, stacked(child_drawn, so_far), bar_drawn);
                    let layers = stacked(bar_drawn, stacked(child_drawn, so_far));
                    assert forall|x: int, y: int| layers(x, y) == #[trigger] next(x, y) by {
                        lemma_below_step(layout, *style, spacing, child_id as nat, x - ox, y - oy);
                    }
                    lemma_laid_same(before, buffer@, layers, next);
                }
                child_id += 1;
            }
        }
    }

    /// Draws the connector bar from the centre line of child `child_id` to
    /// that of the next child. `child_x` is the column on which the span of
    /// child `child_id` begins.
    fn render_connector(
        &self,
        buffer: &mut Vec<Vec<char>>,
        origin: &Point2D,
        style: &BoxDrawings,
        horizontal_spacing: usize,
        child_id: usize,
        child_x: usize,
    )
        requires
            self.well_formed(horizontal_spacing),
            child_id + 1 < self.children.len(),
            child_x == origin.x + child_left(self@, horizontal_spacing as nat, child_id as int),
            holds(
                old(buffer)@,
                origin.x as int,
                origin.y as int,
                self.overall_width as int,
                self.overall_height as int,
            ),
        ensures
            laid_over(
                old(buffer)@,
                final(buffer)@,
                shifted(
                    gap(self@, *style, horizontal_spacing as nat, child_id as int),
                    origin.x as int,
                    origin.y as int,
                ),
            ),
    {
        let ghost layout = self@;
        let ghost spacing = horizontal_spacing as nat;
        let ghost before = buffer@;
        let ghost ox = origin.x as int;
        let ghost oy = origin.y as int;
        let ghost span_width = self.overall_width as int;
        let ghost span_height = self.overall_height as int;
        let ghost from = stem(layout, spacing, child_id as int);
        let ghost to = stem(layout, spacing, child_id + 1);
        let count = self.children.len();
        let child = &self.children[child_id];
        let next = &self.children[child_id + 1];
        proof {
            lemma_children_in_span(layout, spacing);
            lemma_stems(layout, spacing, child_id as int, child_id + 1);
            assert(layout.children[child_id as int] == child@);
            assert(layout.children[child_id + 1] == next@);
            assert(box_in_span(layout.children[child_id + 1]));
            lemma_holds_cell(before, ox, oy, span_width, span_height, oy + self.height);
            assert(before.len() == buffer.len());
        }
        let row = origin.y + self.height;
        let start = child_x + child.center_x + 1;
        let end = child_x + child.overall_width + horizontal_spacing + next.center_x;
        let center = origin.x + self.center_x;
        assert(start - 1 == ox + from);
        assert(end == ox + to);
        proof {
            let begun = shifted(bar_run(layout, *style, spacing, from + 1, from + 1), ox, oy);
            lemma_laid_nothing(before);
            assert forall|x: int, y: int| nothing()(x, y) == #[trigger] begun(x, y) by {}
            lemma_laid_same(before, before, nothing(), begun);
        }
        let mut x = start;
        while x < end
            invariant
                start <= x <= end,
                layout == self@,
                spacing == horizontal_spacing as nat,
                ox == origin.x,
                oy == origin.y,
                arranged(layout, spacing),
                child_id + 1 < layout.children.len(),
                from == stem(layout, spacing, child_id as int),
                to == stem(layout, spacing, child_id + 1),
                start - 1 == ox + from,
                end == ox + to,
                center == ox + layout.center_x,
                row == oy + layout.box_height,
                row < before.len(),
                end < before[row as int].len(),
                buffer@.len() == before.len(),
                buffer@[row as int].len() == before[row as int].len(),
                laid_over(
                    before,
                    buffer@,
                    shifted(bar_run(layout, *style, spacing, from + 1, x - ox), ox, oy),
                ),
            decreases end - x,
        {
            let ghost reached = buffer@;
            let ghost so_far = shifted(bar_run(layout, *style, spacing, from + 1, x - ox), ox, oy);
            let glyph = if x != center {
                style.horizontal
            } else {
                // The parent's line comes down on the bar here.
                style.up_and_horizontal
            };
            set_cell(buffer, x, row, glyph);
            proof {
                let drawn = dot(x as int, row as int, glyph);
                let next_run = shifted(
                    bar_run(layout, *style, spacing, from + 1, x - ox + 1),
                    ox,
                    oy,
                );
                lemma_bar_between(layout, *style, spacing, child_id as int, x - ox);
                lemma_laid_then(before, reached, buffer@, so_far, drawn);
                assert forall|cx: int, cy: int| stacked(drawn, so_far)(cx, cy)
                    == #[trigger] next_run(cx, cy) by {}
                lemma_laid_same(before, buffer@, stacked(drawn, so_far), next_run);
                reveal(laid_over);
            }
            x += 1;
        }
        let ghost run = buffer@;
        let ghost run_drawn = shifted(bar_run(layout, *style, spacing, from + 1, to), ox, oy);
        let ghost first_drawn = if child_id == 0 {
            dot(ox + from, row as int, style.up_and_left)
        } else {
            nothing()
        };
        if child_id == 0 {
            // The bar begins over the first child.
            set_cell(buffer, start - 1, row, style.up_and_left);
        } else {
            proof {
                lemma_laid_nothing(run);
            }
        }
        let ghost begun = buffer@;
        proof {
            lemma_laid_then(before, run, begun, run_drawn, first_drawn);
            lemma_laid_holds(
                before,
                begun,
                stacked(first_drawn, run_drawn),
                ox,
                oy,
                span_width,
                span_height,
            );
            lemma_holds_cell(begun, ox, oy, span_width, span_height, row as int);
        }
        let glyph = if child_id == count - 2 {
            // The bar ends over the last child.
            style.up_and_right
        } else if end == center {
            // The parent's line meets the line to a child.
            style.vertical_and_horizontal
        } else {
            // The line to a child branches off the bar.
            style.down_and_horizontal
        };
        set_cell(buffer, end, row, glyph);
        proof {
            let last_drawn = dot(end as int, row as int, glyph);
            let whole = shifted(gap(layout, *style, spacing, child_id as int), ox, oy);
            lemma_bar_at_stem(layout, *style, spacing, child_id as int);
            lemma_bar_at_stem(layout, *style, spacing, child_id + 1);
            lemma_laid_then(before, begun, buffer@, stacked(first_drawn, run_drawn), last_drawn);
            let layers = stacked(last_drawn, stacked(first_drawn, run_drawn));
            assert forall|x: int, y: int| layers(x, y) == #[trigger] whole(x, y) by {}
            lemma_laid_same(before, buffer@, layers, whole);
        }
    }
}

/// The diagram of the tree `tree_node` as text, drawn with `style` and with
/// `horizontal_spacing` columns between siblings.
pub fn render(tree_node: &TreeNode, style: &BoxDrawings, horizontal_spacing: usize) -> (text:
    String)
    requires
        fits(layout_of(tree_node@, horizontal_spacing as nat)),
    ensures
        text@ == diagram(tree_node@, *style, horizontal_spacing as nat),
{
    let drawable = DrawableTreeNode::new(tree_node, horizontal_spacing);
    drawable.render(style, horizontal_spacing)
}

} // verus!
