//! What a laid-out tree looks like on a grid of characters.
//!
//! A picture is first described as *ink*: for every cell of the grid, the
//! character drawn there or `None` where nothing is drawn. Cells are named by
//! column `x` and row `y`, counted from the top-left corner of a node's span.
//! The drawing functions lay ink over a grid that is held as rows of
//! characters.

use vstd::prelude::*;
use crate::text::byte_len;
use crate::text::char_rows;
use crate::text::joined;
use crate::text::lemma_byte_len_at_least_len;
use crate::text::lemma_split_join;
use crate::text::split_on;
use crate::tree::layout::arranged;
use crate::tree::layout::box_in_span;
use crate::tree::layout::center_of_box;
use crate::tree::layout::child_center;
use crate::tree::layout::child_start;
use crate::tree::layout::children_top;
use crate::tree::layout::Layout;
use crate::tree::layout::layout_of;
use crate::tree::layout::lemma_arrange_contains;
use crate::tree::layout::lemma_child_start_ordered;
use crate::tree::layout::lemma_label_lines_feed_free;
use crate::tree::layout::lemma_layout_arranged;
use crate::tree::layout::lemma_widest_line;
use crate::tree::style::bottom_connector;
use crate::tree::style::BoxDrawings;
use crate::tree::style::palette;
use crate::tree::style::Style;
use crate::tree::style::top_connector;
use crate::tree::tree_node::Outline;

verus! {

/// The border of a box `width` columns wide and `height` rows high whose
/// top-left corner is the cell (0, 0): corners, horizontal edges on the first
/// and last row, vertical edges on the first and last column.
pub open spec fn frame_ink(style: BoxDrawings, width: int, height: int, x: int, y: int) -> Option<
    char,
> {
    if x < 0 || x >= width || y < 0 || y >= height {
        None
    } else if y == 0 {
        Some(
            if x == 0 {
                style.up_and_left
            } else if x == width - 1 {
                style.up_and_right
            } else {
                style.horizontal
            },
        )
    } else if y == height - 1 {
        Some(
            if x == 0 {
                style.down_and_left
            } else if x == width - 1 {
                style.down_and_right
            } else {
                style.horizontal
            },
        )
    } else if x == 0 || x == width - 1 {
        Some(style.vertical)
    } else {
        None
    }
}

/// The characters of `line` on the columns from `start` on.
pub open spec fn label_ink(line: Seq<char>, start: int, x: int) -> Option<char> {
    if start <= x < start + line.len() {
        Some(line[x - start])
    } else {
        None
    }
}

/// The column of the left border of a node's box.
pub open spec fn box_left(layout: Layout) -> int {
    layout.center_x - center_of_box(layout.box_width)
}

/// The column on which a line of a node's label begins: the line is centred
/// in the box by its length in bytes, half a column to the left where the
/// two sides cannot be equal.
pub open spec fn label_start(layout: Layout, line: Seq<char>) -> int {
    box_left(layout) + (layout.box_width - byte_len(line)) / 2
}

/// The box of a node: its border with the label's lines inside, one per row.
/// Where a line from the parent arrives (`attached`), the top border shows
/// the top connector above the centre; where the node has children, the
/// bottom border shows the bottom connector below it.
#[verifier::opaque]
pub open spec fn box_ink(layout: Layout, style: BoxDrawings, attached: bool, x: int, y: int)
    -> Option<char> {
    if y == 0 && x == layout.center_x && attached {
        Some(top_connector(style))
    } else if y == layout.box_height - 1 && x == layout.center_x && layout.children.len() > 0 {
        Some(bottom_connector(style))
    } else {
        match frame_ink(
            style,
            layout.box_width as int,
            layout.box_height as int,
            x - box_left(layout),
            y,
        ) {
            Some(glyph) => Some(glyph),
            None => if 0 < y < layout.box_height - 1 {
                label_ink(layout.labels[y - 1], label_start(layout, layout.labels[y - 1]), x)
            } else {
                None
            },
        }
    }
}

/// The column of the centre line of child `i`, counted from the left edge of
/// the parent's span.
pub open spec fn stem(layout: Layout, spacing: nat, i: int) -> int {
    (layout.children_left_offset + child_center(layout.children, spacing, i)) as int
}

/// Whether the centre line of some child is on column `x`.
pub open spec fn is_stem(layout: Layout, spacing: nat, x: int) -> bool {
    exists|i: int| 0 <= i < layout.children.len() && stem(layout, spacing, i) == x
}

/// The connector bar of a node with two or more children, on the row below
/// the node's box. It runs from the centre line of the first child, where it
/// turns down with a corner, to that of the last, where it does the same. In
/// between, the column below the parent's centre shows a tee with its stem
/// going up, the centre line of a child a tee with its stem going down, and a
/// column that is both shows a cross.
#[verifier::opaque]
pub open spec fn bar_ink(layout: Layout, style: BoxDrawings, spacing: nat, x: int) -> Option<char> {
    let first = stem(layout, spacing, 0);
    let last = stem(layout, spacing, layout.children.len() - 1);
    if layout.children.len() < 2 || x < first || x > last {
        None
    } else if x == first {
        Some(style.up_and_left)
    } else if x == last {
        Some(style.up_and_right)
    } else if is_stem(layout, spacing, x) {
        if x == layout.center_x {
            Some(style.vertical_and_horizontal)
        } else {
            Some(style.down_and_horizontal)
        }
    } else if x == layout.center_x {
        Some(style.up_and_horizontal)
    } else {
        Some(style.horizontal)
    }
}

/// What the first `count` children of a node draw: each its own picture, in
/// its own span.
#[verifier::opaque]
pub open spec fn children_ink(
    layout: Layout,
    style: BoxDrawings,
    spacing: nat,
    count: nat,
    x: int,
    y: int,
) -> Option<char>
    decreases layout, count,
{
    if count == 0 || count > layout.children.len() {
        None
    } else {
        let child = layout.children[count - 1];
        let left = layout.children_left_offset + child_start(layout.children, spacing, count - 1);
        if left <= x < left + child.subtree_width {
            ink(child, style, spacing, true, x - left, y - children_top(layout))
        } else {
            children_ink(layout, style, spacing, (count - 1) as nat, x, y)
        }
    }
}

/// The picture of a node and everything below it: the node's box on the top
/// rows of the span, then the connector bar if there are two or more
/// children, then the pictures of the children side by side.
#[verifier::opaque]
pub open spec fn ink(
    layout: Layout,
    style: BoxDrawings,
    spacing: nat,
    attached: bool,
    x: int,
    y: int,
) -> Option<char>
    decreases layout, layout.children.len() + 1,
{
    if y < layout.box_height {
        box_ink(layout, style, attached, x, y)
    } else if y < children_top(layout) {
        bar_ink(layout, style, spacing, x)
    } else {
        children_ink(layout, style, spacing, layout.children.len(), x, y)
    }
}

/// The character that the cell shows in the picture of a whole tree: what is
/// drawn there, and a space where nothing is.
pub open spec fn glyph(layout: Layout, style: BoxDrawings, spacing: nat, x: int, y: int) -> char {
    match ink(layout, style, spacing, false, x, y) {
        Some(glyph) => glyph,
        None => ' ',
    }
}

/// The picture of a whole tree as rows of characters: as many rows as the
/// span is high, each as long as the span is wide.
pub open spec fn canvas(layout: Layout, style: BoxDrawings, spacing: nat) -> Seq<Seq<char>> {
    Seq::new(
        layout.subtree_height,
        |y: int| Seq::new(layout.subtree_width, |x: int| glyph(layout, style, spacing, x, y)),
    )
}

/// The rows one after another, with a line feed between each two.
pub open spec fn join_lines(rows: Seq<Seq<char>>) -> Seq<char> {
    joined(rows, '\n')
}

/// The diagram of the tree `outline`, drawn with `style` and with `spacing`
/// columns between siblings, as text.
pub open spec fn diagram(outline: Outline, style: BoxDrawings, spacing: nat) -> Seq<char> {
    join_lines(canvas(layout_of(outline, spacing), style, spacing))
}

/// Ink on ink: what `upper` draws, and what `lower` draws where `upper` draws nothing.
pub open spec fn over(upper: Option<char>, lower: Option<char>) -> Option<char> {
    match upper {
        Some(_) => upper,
        None => lower,
    }
}

/// A picture: for every cell, by column and row, what is drawn there.
pub type Ink = spec_fn(int, int) -> Option<char>;

/// The picture in which nothing is drawn.
pub open spec fn nothing() -> Ink {
    |x: int, y: int| None
}

/// The picture of `glyph` on column `at_x` of row `at_y`.
pub open spec fn dot(at_x: int, at_y: int, glyph: char) -> Ink {
    |x: int, y: int|
        if x == at_x && y == at_y {
            Some(glyph)
        } else {
            None
        }
}

/// The picture `ink` moved `left` columns to the right and `top` rows down.
pub open spec fn shifted(ink: Ink, left: int, top: int) -> Ink {
    |x: int, y: int| ink(x - left, y - top)
}

/// The picture `upper` drawn over the picture `lower`.
pub open spec fn stacked(upper: Ink, lower: Ink) -> Ink {
    |x: int, y: int| over(upper(x, y), lower(x, y))
}

/// Whether `after` is `before` with `ink` laid over it: the same rows of the
/// same lengths, showing what `ink` draws and, where it draws nothing, what
/// `before` showed.
#[verifier::opaque]
pub open spec fn laid_over(before: Seq<Vec<char>>, after: Seq<Vec<char>>, ink: Ink) -> bool {
    &&& after.len() == before.len()
    &&& forall|y: int| 0 <= y < before.len() ==> (#[trigger] after[y]).len() == before[y].len()
    &&& forall|x: int, y: int|
        0 <= y < before.len() && 0 <= x < before[y].len() ==> #[trigger] after[y]@[x] == (match ink(
            x,
            y,
        ) {
            Some(glyph) => glyph,
            None => before[y]@[x],
        })
}

/// Whether a rectangle `width` columns wide and `height` rows high, with its
/// top-left corner on column `left` of row `top`, lies on the grid.
#[verifier::opaque]
pub open spec fn holds(rows: Seq<Vec<char>>, left: int, top: int, width: int, height: int) -> bool {
    &&& 0 <= left
    &&& 0 <= top
    &&& top + height <= rows.len()
    &&& forall|y: int| top <= y < top + height ==> left + width <= (#[trigger] rows[y]).len()
}

/// A grid is itself with nothing laid over it.
pub proof fn lemma_laid_nothing(rows: Seq<Vec<char>>)
    ensures
        laid_over(rows, rows, nothing()),
{
    reveal(laid_over);
}

/// Laying one picture and then another lays the second over the first.
pub proof fn lemma_laid_then(
    first: Seq<Vec<char>>,
    second: Seq<Vec<char>>,
    third: Seq<Vec<char>>,
    lower: Ink,
    upper: Ink,
)
    requires
        laid_over(first, second, lower),
        laid_over(second, third, upper),
    ensures
        laid_over(first, third, stacked(upper, lower)),
{
    reveal(laid_over);
    assert forall|x: int, y: int|
        0 <= y < first.len() && 0 <= x < first[y].len() implies #[trigger] third[y]@[x] == (
    match stacked(upper, lower)(x, y) {
        Some(glyph) => glyph,
        None => first[y]@[x],
    }) by {
        assert(second[y].len() == first[y].len());
        let shown = second[y]@[x];
    }
}

/// Pictures that draw the same in every cell lay the same.
pub proof fn lemma_laid_same(before: Seq<Vec<char>>, after: Seq<Vec<char>>, ink: Ink, same: Ink)
    requires
        laid_over(before, after, ink),
        forall|x: int, y: int| ink(x, y) == #[trigger] same(x, y),
    ensures
        laid_over(before, after, same),
{
    reveal(laid_over);
}

/// A rectangle that lies on a grid lies on it whatever is laid over the grid.
pub proof fn lemma_laid_holds(
    before: Seq<Vec<char>>,
    after: Seq<Vec<char>>,
    ink: Ink,
    left: int,
    top: int,
    width: int,
    height: int,
)
    requires
        laid_over(before, after, ink),
        holds(before, left, top, width, height),
    ensures
        holds(after, left, top, width, height),
{
    reveal(laid_over);
    reveal(holds);
}

/// A rectangle inside one that lies on the grid lies on the grid.
pub proof fn lemma_holds_inside(
    rows: Seq<Vec<char>>,
    left: int,
    top: int,
    width: int,
    height: int,
    inner_left: int,
    inner_top: int,
    inner_width: int,
    inner_height: int,
)
    requires
        holds(rows, left, top, width, height),
        left <= inner_left,
        inner_left + inner_width <= left + width,
        top <= inner_top,
        inner_top + inner_height <= top + height,
    ensures
        holds(rows, inner_left, inner_top, inner_width, inner_height),
{
    reveal(holds);
}

/// A cell of a rectangle that lies on the grid is a cell of the grid.
pub proof fn lemma_holds_cell(
    rows: Seq<Vec<char>>,
    left: int,
    top: int,
    width: int,
    height: int,
    y: int,
)
    requires
        holds(rows, left, top, width, height),
        top <= y < top + height,
    ensures
        0 <= left,
        0 <= y < rows.len(),
        left + width <= rows[y].len(),
{
    reveal(holds);
}

/// The picture has as many rows as the span is high, and every row is as
/// long as the span is wide.
pub proof fn lemma_canvas_size(layout: Layout, style: BoxDrawings, spacing: nat)
    ensures
        canvas(layout, style, spacing).len() == layout.subtree_height,
        forall|y: int|
            0 <= y < layout.subtree_height ==> (#[trigger] canvas(layout, style, spacing)[y]).len()
                == layout.subtree_width,
{
}

/// The centre lines of the children follow one another from left to right.
pub proof fn lemma_stems_ordered(layout: Layout, spacing: nat, i: int, j: int)
    requires
        0 <= i < j < layout.children.len(),
        box_in_span(layout.children[i]),
    ensures
        stem(layout, spacing, i) < stem(layout, spacing, j),
{
    lemma_child_start_ordered(layout.children, spacing, i, j);
}

/// The box and the lines in it: what an arranged layout says of them.
pub proof fn lemma_label_in_box(layout: Layout, spacing: nat, j: int)
    requires
        arranged(layout, spacing),
        0 <= j < layout.labels.len(),
    ensures
        layout.box_height == layout.labels.len() + 2,
        box_left(layout) + 2 <= label_start(layout, layout.labels[j]),
        label_start(layout, layout.labels[j]) + layout.labels[j].len() <= box_left(layout)
            + layout.box_width - 2,
        byte_len(layout.labels[j]) + 4 <= layout.box_width,
{
    reveal(arranged);
    lemma_widest_line(layout.labels, j);
    lemma_byte_len_at_least_len(layout.labels[j]);
}

/// Nothing is drawn outside the span.
pub proof fn lemma_ink_in_span(
    layout: Layout,
    style: BoxDrawings,
    spacing: nat,
    attached: bool,
    x: int,
    y: int,
)
    requires
        arranged(layout, spacing),
        ink(layout, style, spacing, attached, x, y) is Some,
    ensures
        0 <= x < layout.subtree_width,
        0 <= y < layout.subtree_height,
    decreases layout, layout.children.len() + 1,
{
    reveal(arranged);
    reveal(ink);
    reveal(children_ink);
    reveal(box_ink);
    reveal(bar_ink);
    lemma_arrange_contains(layout.labels, layout.children, spacing);
    if y < layout.box_height {
        if 0 < y < layout.box_height - 1 && 0 <= y - 1 < layout.labels.len() {
            lemma_label_in_box(layout, spacing, y - 1);
        }
    } else if y < children_top(layout) {
        let last = layout.children.len() - 1;
        assert(arranged(layout.children[0], spacing));
        assert(arranged(layout.children[last], spacing));
        lemma_arrange_contains(layout.children[0].labels, layout.children[0].children, spacing);
        lemma_arrange_contains(
            layout.children[last].labels,
            layout.children[last].children,
            spacing,
        );
    } else {
        lemma_children_ink_in_span(layout, style, spacing, layout.children.len(), x, y);
    }
}

/// The first `count` children draw in their own spans only.
pub proof fn lemma_children_ink_in_span(
    layout: Layout,
    style: BoxDrawings,
    spacing: nat,
    count: nat,
    x: int,
    y: int,
)
    requires
        arranged(layout, spacing),
        children_ink(layout, style, spacing, count, x, y) is Some,
    ensures
        1 <= count <= layout.children.len(),
        layout.children_left_offset <= x < layout.children_left_offset + child_start(
            layout.children,
            spacing,
            count - 1,
        ) + layout.children[count - 1].subtree_width,
        x < layout.subtree_width,
        children_top(layout) <= y < layout.subtree_height,
    decreases layout, count,
{
    reveal(arranged);
    reveal(ink);
    reveal(children_ink);
    lemma_arrange_contains(layout.labels, layout.children, spacing);
    let child = layout.children[count - 1];
    let left = layout.children_left_offset + child_start(layout.children, spacing, count - 1);
    if left <= x < left + child.subtree_width {
        assert(arranged(child, spacing));
        lemma_ink_in_span(child, style, spacing, true, x - left, y - children_top(layout));
    } else {
        lemma_children_ink_in_span(layout, style, spacing, (count - 1) as nat, x, y);
        if count >= 2 {
            lemma_child_start_ordered(layout.children, spacing, count - 2, count - 1);
        }
    }
}

/// The first `count` lines of a node's label, each on its row of the box.
pub open spec fn labels_ink(layout: Layout, count: int, x: int, y: int) -> Option<char> {
    if 0 < y <= count && y <= layout.labels.len() {
        label_ink(layout.labels[y - 1], label_start(layout, layout.labels[y - 1]), x)
    } else {
        None
    }
}

/// The columns of the connector bar between the centre lines of child `i` and
/// of the child after it, the second included and, for the first child, the
/// first too.
pub open spec fn gap_ink(
    layout: Layout,
    style: BoxDrawings,
    spacing: nat,
    i: int,
    x: int,
    y: int,
) -> Option<char> {
    if y == layout.box_height && (stem(layout, spacing, i) < x <= stem(layout, spacing, i + 1) || (i
        == 0 && x == stem(layout, spacing, 0))) {
        bar_ink(layout, style, spacing, x)
    } else {
        None
    }
}

/// What is drawn of a node's children once the first `count` of them are
/// done: the bottom connector on the node's box, the connector bar as far as
/// the centre line of the last child reached, and the pictures of those
/// children.
#[verifier::opaque]
pub open spec fn below_ink(
    layout: Layout,
    style: BoxDrawings,
    spacing: nat,
    count: nat,
    x: int,
    y: int,
) -> Option<char> {
    let reached = if count < layout.children.len() {
        count as int
    } else {
        layout.children.len() - 1
    };
    if layout.children.len() == 0 {
        None
    } else if y == layout.box_height - 1 && x == layout.center_x {
        Some(bottom_connector(style))
    } else if y < layout.box_height {
        None
    } else if y < children_top(layout) {
        if count >= 1 && x <= stem(layout, spacing, reached) {
            bar_ink(layout, style, spacing, x)
        } else {
            None
        }
    } else {
        children_ink(layout, style, spacing, count, x, y)
    }
}

/// The picture of a node and everything below it.
pub open spec fn node_ink(layout: Layout, style: BoxDrawings, spacing: nat, attached: bool) -> Ink {
    |x: int, y: int| ink(layout, style, spacing, attached, x, y)
}

/// The first `count` lines of a node's label.
pub open spec fn labels(layout: Layout, count: int) -> Ink {
    |x: int, y: int| labels_ink(layout, count, x, y)
}

/// The top connector of a node, if a line from the parent arrives.
pub open spec fn top_ink(layout: Layout, style: BoxDrawings, attached: bool) -> Ink {
    |x: int, y: int|
        if attached && x == layout.center_x && y == 0 {
            Some(top_connector(style))
        } else {
            None
        }
}

/// The connector bar from column `from` up to, not including, column `to`.
pub open spec fn bar_run(layout: Layout, style: BoxDrawings, spacing: nat, from: int, to: int)
    -> Ink {
    |x: int, y: int|
        if y == layout.box_height && from <= x < to {
            bar_ink(layout, style, spacing, x)
        } else {
            None
        }
}

/// The connector bar between child `i` and the child after it.
pub open spec fn gap(layout: Layout, style: BoxDrawings, spacing: nat, i: int) -> Ink {
    |x: int, y: int| gap_ink(layout, style, spacing, i, x, y)
}

/// What is drawn of a node's children once the first `count` are done.
pub open spec fn below(layout: Layout, style: BoxDrawings, spacing: nat, count: nat) -> Ink {
    |x: int, y: int| below_ink(layout, style, spacing, count, x, y)
}

/// What an arranged layout says of the children: each is arranged, its box
/// lies in its span, and its span lies in the parent's.
pub proof fn lemma_children_in_span(layout: Layout, spacing: nat)
    requires
        arranged(layout, spacing),
    ensures
        box_in_span(layout),
        layout.box_height == layout.labels.len() + 2,
        forall|i: int|
            #![trigger layout.children[i]]
            0 <= i < layout.children.len() ==> {
                &&& arranged(layout.children[i], spacing)
                &&& box_in_span(layout.children[i])
                &&& layout.children_left_offset + child_start(layout.children, spacing, i)
                    + layout.children[i].subtree_width <= layout.subtree_width
                &&& children_top(layout) + layout.children[i].subtree_height
                    <= layout.subtree_height
            },
{
    reveal(arranged);
    lemma_arrange_contains(layout.labels, layout.children, spacing);
    assert forall|i: int| #![trigger layout.children[i]] 0 <= i < layout.children.len() implies {
        &&& arranged(layout.children[i], spacing)
        &&& box_in_span(layout.children[i])
    } by {
        let child = layout.children[i];
        assert(arranged(child, spacing));
        lemma_arrange_contains(child.labels, child.children, spacing);
    }
}

/// The centre lines of the children are columns of the span, in order.
pub proof fn lemma_stems(layout: Layout, spacing: nat, i: int, j: int)
    requires
        arranged(layout, spacing),
        0 <= i <= j < layout.children.len(),
    ensures
        0 <= stem(layout, spacing, i) <= stem(layout, spacing, j) < layout.subtree_width,
        i < j ==> stem(layout, spacing, i) < stem(layout, spacing, j),
{
    lemma_children_in_span(layout, spacing);
    if i < j {
        lemma_stems_ordered(layout, spacing, i, j);
    }
}

/// The centre line of a parent is that of its child, if it has one child,
/// and lies between those of its first and its last child, if it has more:
/// the line that leaves the parent's box meets the child, or the bar.
pub proof fn lemma_center_over_children(layout: Layout, spacing: nat)
    requires
        arranged(layout, spacing),
        layout.children.len() >= 1,
    ensures
        layout.children.len() == 1 ==> layout.center_x == stem(layout, spacing, 0),
        layout.children.len() >= 2 ==> stem(layout, spacing, 0) < layout.center_x < stem(
            layout,
            spacing,
            layout.children.len() - 1,
        ),
{
    reveal(arranged);
    let last = layout.children.len() - 1;
    lemma_children_in_span(layout, spacing);
    assert(box_in_span(layout.children[0]));
    assert(box_in_span(layout.children[last]));
    if last > 0 {
        lemma_child_start_ordered(layout.children, spacing, 0, last);
    }
}

/// Between the centre lines of two neighbours the bar is a plain line, but
/// for the tee below the parent's centre.
pub proof fn lemma_bar_between(layout: Layout, style: BoxDrawings, spacing: nat, i: int, x: int)
    requires
        arranged(layout, spacing),
        0 <= i,
        i + 1 < layout.children.len(),
        stem(layout, spacing, i) < x < stem(layout, spacing, i + 1),
    ensures
        bar_ink(layout, style, spacing, x) == Some(
            if x == layout.center_x {
                style.up_and_horizontal
            } else {
                style.horizontal
            },
        ),
{
    reveal(bar_ink);
    let last = layout.children.len() - 1;
    lemma_stems(layout, spacing, 0, i);
    lemma_stems(layout, spacing, i + 1, last);
    assert forall|j: int| 0 <= j < layout.children.len() implies stem(layout, spacing, j)
        != x by {
        if j <= i {
            lemma_stems(layout, spacing, j, i);
        } else {
            lemma_stems(layout, spacing, i + 1, j);
        }
    }
}

/// On the centre line of a child the bar turns down: with a corner at the
/// first and the last child, with a tee or a cross at the others.
pub proof fn lemma_bar_at_stem(layout: Layout, style: BoxDrawings, spacing: nat, i: int)
    requires
        arranged(layout, spacing),
        layout.children.len() >= 2,
        0 <= i < layout.children.len(),
    ensures
        bar_ink(layout, style, spacing, stem(layout, spacing, i)) == Some(
            if i == 0 {
                style.up_and_left
            } else if i == layout.children.len() - 1 {
                style.up_and_right
            } else if stem(layout, spacing, i) == layout.center_x {
                style.vertical_and_horizontal
            } else {
                style.down_and_horizontal
            },
        ),
{
    reveal(bar_ink);
    let last = layout.children.len() - 1;
    lemma_stems(layout, spacing, 0, i);
    lemma_stems(layout, spacing, i, last);
    lemma_stems(layout, spacing, 0, last);
}

/// The column at which the span of child `i` begins, counted from the left
/// edge of the parent's span.
pub open spec fn child_left(layout: Layout, spacing: nat, i: int) -> int {
    (layout.children_left_offset + child_start(layout.children, spacing, i)) as int
}

/// A child draws nothing above its span, and nothing beside it.
proof fn lemma_child_ink_apart(
    layout: Layout,
    style: BoxDrawings,
    spacing: nat,
    i: int,
    x: int,
    y: int,
)
    requires
        arranged(layout, spacing),
        0 <= i < layout.children.len(),
        y < children_top(layout) || x < child_left(layout, spacing, i) || x >= child_left(
            layout,
            spacing,
            i,
        ) + layout.children[i].subtree_width,
    ensures
        ink(
            layout.children[i],
            style,
            spacing,
            true,
            x - child_left(layout, spacing, i),
            y - children_top(layout),
        ) is None,
{
    reveal(arranged);
    let child = layout.children[i];
    assert(arranged(child, spacing));
    let drawn = ink(
        child,
        style,
        spacing,
        true,
        x - child_left(layout, spacing, i),
        y - children_top(layout),
    );
    if drawn is Some {
        lemma_ink_in_span(
            child,
            style,
            spacing,
            true,
            x - child_left(layout, spacing, i),
            y - children_top(layout),
        );
    }
}

/// The children before child `count` draw nothing in its span.
proof fn lemma_earlier_children_apart(
    layout: Layout,
    style: BoxDrawings,
    spacing: nat,
    count: nat,
    x: int,
    y: int,
)
    requires
        arranged(layout, spacing),
        count < layout.children.len(),
        child_left(layout, spacing, count as int) <= x,
    ensures
        children_ink(layout, style, spacing, count, x, y) is None,
{
    if children_ink(layout, style, spacing, count, x, y) is Some {
        lemma_children_ink_in_span(layout, style, spacing, count, x, y);
        lemma_child_start_ordered(layout.children, spacing, count - 1, count as int);
    }
}

/// On the row of the connector bar, what is drawn once child `count` and
/// the bar up to the next child are done.
proof fn lemma_below_step_bar(
    layout: Layout,
    style: BoxDrawings,
    spacing: nat,
    count: nat,
    x: int,
)
    requires
        arranged(layout, spacing),
        count < layout.children.len(),
        layout.children.len() >= 2,
    ensures
        below_ink(layout, style, spacing, count + 1, x, layout.box_height as int) == over(
            if count + 1 < layout.children.len() {
                gap_ink(layout, style, spacing, count as int, x, layout.box_height as int)
            } else {
                None
            },
            below_ink(layout, style, spacing, count, x, layout.box_height as int),
        ),
{
    reveal(below_ink);
    reveal(bar_ink);
    let n = layout.children.len();
    let y = layout.box_height as int;
    lemma_children_in_span(layout, spacing);
    assert(y != layout.box_height - 1);
    assert(y < children_top(layout));
    if count + 1 < n {
        lemma_stems(layout, spacing, count as int, count as int + 1);
        lemma_stems(layout, spacing, 0, count as int);
        if x < stem(layout, spacing, 0) {
            assert(bar_ink(layout, style, spacing, x) is None);
        }
    }
}

/// Before any child is drawn, all that is drawn of the children is the
/// bottom connector on the node's box.
pub proof fn lemma_below_begin(layout: Layout, style: BoxDrawings, spacing: nat, x: int, y: int)
    ensures
        below_ink(layout, style, spacing, 0, x, y) == if layout.children.len() > 0 && y
            == layout.box_height - 1 && x == layout.center_x {
            Some(bottom_connector(style))
        } else {
            None
        },
{
    reveal(below_ink);
    reveal(children_ink);
}

/// A node without children draws no children.
pub proof fn lemma_below_none(
    layout: Layout,
    style: BoxDrawings,
    spacing: nat,
    count: nat,
    x: int,
    y: int,
)
    requires
        layout.children.len() == 0,
    ensures
        below_ink(layout, style, spacing, count, x, y) is None,
{
    reveal(below_ink);
}

/// Drawing child `count` and the bar as far as the next child adds just that
/// to what was drawn of the children before.
pub proof fn lemma_below_step(
    layout: Layout,
    style: BoxDrawings,
    spacing: nat,
    count: nat,
    x: int,
    y: int,
)
    requires
        arranged(layout, spacing),
        count < layout.children.len(),
    ensures
        below_ink(layout, style, spacing, count + 1, x, y) == over(
            if count + 1 < layout.children.len() {
                gap_ink(layout, style, spacing, count as int, x, y)
            } else {
                None
            },
            over(
                ink(
                    layout.children[count as int],
                    style,
                    spacing,
                    true,
                    x - child_left(layout, spacing, count as int),
                    y - children_top(layout),
                ),
                below_ink(layout, style, spacing, count, x, y),
            ),
        ),
{
    reveal(below_ink);
    reveal(ink);
    reveal(children_ink);
    let n = layout.children.len();
    let left = child_left(layout, spacing, count as int);
    let width = layout.children[count as int].subtree_width;
    lemma_children_in_span(layout, spacing);
    if y < children_top(layout) {
        lemma_child_ink_apart(layout, style, spacing, count as int, x, y);
        if y == layout.box_height {
            lemma_below_step_bar(layout, style, spacing, count, x);
        }
    } else {
        if count + 1 < n {
            assert(gap_ink(layout, style, spacing, count as int, x, y) is None);
        }
        if left <= x < left + width {
            lemma_earlier_children_apart(layout, style, spacing, count, x, y);
        } else {
            lemma_child_ink_apart(layout, style, spacing, count as int, x, y);
        }
    }
}

/// The picture of a node is its frame, the label's lines in it, the top
/// connector if a line from the parent arrives, and over these what is drawn
/// of its children.
pub proof fn lemma_ink_assembled(
    layout: Layout,
    style: BoxDrawings,
    spacing: nat,
    attached: bool,
    x: int,
    y: int,
)
    requires
        arranged(layout, spacing),
    ensures
        ink(layout, style, spacing, attached, x, y) == over(
            below_ink(layout, style, spacing, layout.children.len(), x, y),
            over(
                if attached && x == layout.center_x && y == 0 {
                    Some(top_connector(style))
                } else {
                    None
                },
                over(
                    labels_ink(layout, layout.labels.len() as int, x, y),
                    frame_ink(
                        style,
                        layout.box_width as int,
                        layout.box_height as int,
                        x - box_left(layout),
                        y,
                    ),
                ),
            ),
        ),
{
    reveal(ink);
    reveal(children_ink);
    reveal(box_ink);
    reveal(below_ink);
    reveal(bar_ink);
    lemma_children_in_span(layout, spacing);
    if 0 < y <= layout.labels.len() {
        lemma_label_in_box(layout, spacing, y - 1);
    }
    if layout.children.len() >= 2 && y == layout.box_height {
        let last = layout.children.len() - 1;
        lemma_stems(layout, spacing, 0, last);
    }
}

/// The border of a box `width` columns wide and `height` rows high whose
/// top-left corner is the cell (0, 0).
pub open spec fn frame(style: BoxDrawings, width: int, height: int) -> Ink {
    |x: int, y: int| frame_ink(style, width, height, x, y)
}

/// The characters of `line` on row 0, from column 0 on.
pub open spec fn written(line: Seq<char>) -> Ink {
    |x: int, y: int|
        if y == 0 {
            label_ink(line, 0, x)
        } else {
            None
        }
}

/// Every line of a node's label is drawn whole on a row of its own inside
/// the node's box, the first line on the row below the top border, and
/// centred in the box by its length in bytes.
pub proof fn lemma_label_drawn(
    layout: Layout,
    style: BoxDrawings,
    spacing: nat,
    attached: bool,
    line: int,
    at: int,
)
    requires
        arranged(layout, spacing),
        0 <= line < layout.labels.len(),
        0 <= at < layout.labels[line].len(),
    ensures
        layout.box_height == layout.labels.len() + 2,
        label_start(layout, layout.labels[line]) == box_left(layout) + (layout.box_width
            - byte_len(layout.labels[line])) / 2,
        box_left(layout) + 2 <= label_start(layout, layout.labels[line]),
        label_start(layout, layout.labels[line]) + layout.labels[line].len() <= box_left(layout)
            + layout.box_width - 2,
        ink(
            layout,
            style,
            spacing,
            attached,
            label_start(layout, layout.labels[line]) + at,
            line + 1,
        ) == Some(layout.labels[line][at]),
{
    reveal(ink);
    reveal(box_ink);
    lemma_children_in_span(layout, spacing);
    lemma_label_in_box(layout, spacing, line);
}

/// Whether no line of a label in `layout` holds a line feed.
pub open spec fn feed_free(layout: Layout) -> bool
    decreases layout,
{
    &&& forall|j: int, k: int|
        0 <= j < layout.labels.len() && 0 <= k < layout.labels[j].len()
            ==> #[trigger] layout.labels[j][k] != '\n'
    &&& forall|i: int| 0 <= i < layout.children.len() ==> feed_free(#[trigger] layout.children[i])
}

/// Whether no glyph of `style` is a line feed.
pub open spec fn style_feed_free(style: BoxDrawings) -> bool {
    &&& style.up_and_left != '\n'
    &&& style.up_and_right != '\n'
    &&& style.down_and_left != '\n'
    &&& style.down_and_right != '\n'
    &&& style.vertical != '\n'
    &&& style.horizontal != '\n'
    &&& style.vertical_and_horizontal != '\n'
    &&& style.down_and_horizontal != '\n'
    &&& style.up_and_horizontal != '\n'
    &&& style.top_connection != Some('\n')
    &&& style.bottom_connection != Some('\n')
}

/// No glyph of a named palette is a line feed.
pub proof fn lemma_palette_feed_free(style: Style)
    ensures
        style_feed_free(palette(style)),
{
}

/// The labels of a tree's layout hold no line feed: the label's lines end
/// where there was one.
pub proof fn lemma_layout_feed_free(outline: Outline, spacing: nat)
    ensures
        feed_free(layout_of(outline, spacing)),
    decreases outline,
{
    let layout = layout_of(outline, spacing);
    lemma_label_lines_feed_free(outline.label);
    assert forall|i: int| 0 <= i < layout.children.len() implies feed_free(
        #[trigger] layout.children[i],
    ) by {
        lemma_layout_feed_free(outline.children[i], spacing);
    }
}

/// Where neither the labels nor the style hold a line feed, none is drawn.
pub proof fn lemma_ink_feed_free(
    layout: Layout,
    style: BoxDrawings,
    spacing: nat,
    attached: bool,
    x: int,
    y: int,
)
    requires
        arranged(layout, spacing),
        feed_free(layout),
        style_feed_free(style),
    ensures
        ink(layout, style, spacing, attached, x, y) != Some('\n'),
    decreases layout, layout.children.len() + 1,
{
    reveal(ink);
    reveal(children_ink);
    reveal(box_ink);
    reveal(bar_ink);
    lemma_children_in_span(layout, spacing);
    if y < layout.box_height {
        if 0 < y < layout.box_height - 1 {
            let line = layout.labels[y - 1];
            let start = label_start(layout, line);
            if start <= x < start + line.len() {
                assert(layout.labels[y - 1][x - start] != '\n');
            }
        }
    } else if y < children_top(layout) {
    } else {
        lemma_children_ink_feed_free(layout, style, spacing, layout.children.len(), x, y);
    }
}

/// The same, of what the first `count` children draw.
proof fn lemma_children_ink_feed_free(
    layout: Layout,
    style: BoxDrawings,
    spacing: nat,
    count: nat,
    x: int,
    y: int,
)
    requires
        arranged(layout, spacing),
        feed_free(layout),
        style_feed_free(style),
    ensures
        children_ink(layout, style, spacing, count, x, y) != Some('\n'),
    decreases layout, count,
{
    reveal(ink);
    reveal(children_ink);
    lemma_children_in_span(layout, spacing);
    if count == 0 || count > layout.children.len() {
    } else {
        let child = layout.children[count - 1];
        let left = child_left(layout, spacing, count - 1);
        if left <= x < left + child.subtree_width {
            assert(feed_free(child));
            lemma_ink_feed_free(child, style, spacing, true, x - left, y - children_top(layout));
        } else {
            lemma_children_ink_feed_free(layout, style, spacing, (count - 1) as nat, x, y);
        }
    }
}

/// The text of a diagram has as many lines as the span of the tree is high,
/// and each is as many characters long as the span is wide: its lines are the
/// rows of the picture. This holds where no glyph of the style is a line feed.
pub proof fn lemma_diagram_lines(outline: Outline, style: BoxDrawings, spacing: nat)
    requires
        style_feed_free(style),
    ensures
        ({
            let layout = layout_of(outline, spacing);
            let lines = split_on(diagram(outline, style, spacing), '\n');
            &&& lines == canvas(layout, style, spacing)
            &&& lines.len() == layout.subtree_height
            &&& forall|y: int| 0 <= y < lines.len() ==> (#[trigger] lines[y]).len()
                == layout.subtree_width
        }),
{
    let layout = layout_of(outline, spacing);
    let rows = canvas(layout, style, spacing);
    lemma_layout_arranged(outline, spacing);
    lemma_layout_feed_free(outline, spacing);
    lemma_children_in_span(layout, spacing);
    assert forall|y: int, x: int| 0 <= y < rows.len() && 0 <= x < rows[y].len() implies
        #[trigger] rows[y][x] != '\n' by {
        lemma_ink_feed_free(layout, style, spacing, false, x, y);
    }
    lemma_split_join(rows, '\n');
}

/// Drawing is repeatable: two texts that are each the diagram of one and the
/// same tree, drawn with the same style and spacing, are the same text.
pub proof fn lemma_diagram_repeatable(
    outline: Outline,
    style: BoxDrawings,
    spacing: nat,
    first: Seq<char>,
    second: Seq<char>,
)
    requires
        first == diagram(outline, style, spacing),
        second == diagram(outline, style, spacing),
    ensures
        first == second,
{
}

/// Draws `glyph` on the cell.
pub fn set_cell(buffer: &mut Vec<Vec<char>>, x: usize, y: usize, glyph: char)
    requires
        y < old(buffer).len(),
        x < old(buffer)[y as int].len(),
    ensures
        laid_over(old(buffer)@, final(buffer)@, dot(x as int, y as int, glyph)),
{
    proof {
        reveal(laid_over);
    }
    buffer[y][x] = glyph;
}

/// Draws the border of a box `width` columns wide and `height` rows high
/// with its top-left corner on column `left` of row `top`.
pub fn draw_frame(
    buffer: &mut Vec<Vec<char>>,
    left: usize,
    top: usize,
    width: usize,
    height: usize,
    style: &BoxDrawings,
)
    requires
        width >= 2,
        height >= 2,
        holds(old(buffer)@, left as int, top as int, width as int, height as int),
    ensures
        laid_over(
            old(buffer)@,
            final(buffer)@,
            shifted(frame(*style, width as int, height as int), left as int, top as int),
        ),
{
    let ghost blank = buffer@;
    proof {
        reveal(laid_over);
        reveal(holds);
    }
    assert(left + width <= buffer[top as int].len());
    assert(top + height <= buffer.len());
    let right = left + width;
    let bottom = top + height - 1;
    // The horizontal edges.
    let mut x = left + 1;
    while x < right - 1
        invariant
            left + 1 <= x <= right - 1,
            right == left + width,
            bottom == top + height - 1,
            height >= 2,
            holds(blank, left as int, top as int, width as int, height as int),
            laid_over(
                blank,
                buffer@,
                |cx: int, cy: int|
                    if (cy == top || cy == bottom) && left < cx < x {
                        Some(style.horizontal)
                    } else {
                        None
                    },
            ),
        decreases right - x,
    {
        proof {
            reveal(laid_over);
            reveal(holds);
        }
        set_cell(buffer, x, top, style.horizontal);
        set_cell(buffer, x, bottom, style.horizontal);
        x += 1;
    }
    // The vertical edges.
    let ghost edged = buffer@;
    let mut y = top + 1;
    while y < bottom
        invariant
            top + 1 <= y <= bottom,
            right == left + width,
            bottom == top + height - 1,
            width >= 2,
            holds(edged, left as int, top as int, width as int, height as int),
            laid_over(
                edged,
                buffer@,
                |cx: int, cy: int|
                    if (cx == left || cx == right - 1) && top < cy < y {
                        Some(style.vertical)
                    } else {
                        None
                    },
            ),
        decreases bottom - y,
    {
        proof {
            reveal(laid_over);
            reveal(holds);
        }
        set_cell(buffer, left, y, style.vertical);
        set_cell(buffer, right - 1, y, style.vertical);
        y += 1;
    }
    // The four corners.
    set_cell(buffer, left, top, style.up_and_left);
    set_cell(buffer, right - 1, top, style.up_and_right);
    set_cell(buffer, left, bottom, style.down_and_left);
    set_cell(buffer, right - 1, bottom, style.down_and_right);
}

/// Draws the characters of `line` on row `row`, from column `start` on.
pub fn draw_label(buffer: &mut Vec<Vec<char>>, start: usize, row: usize, line: &Vec<char>)
    requires
        row < old(buffer).len(),
        start + line.len() <= old(buffer)[row as int].len(),
    ensures
        laid_over(old(buffer)@, final(buffer)@, shifted(written(line@), start as int, row as int)),
{
    let ghost blank = buffer@;
    proof {
        reveal(laid_over);
    }
    let mut i: usize = 0;
    while i < line.len()
        invariant
            i <= line.len(),
            row < blank.len(),
            start + line.len() <= blank[row as int].len(),
            laid_over(
                blank,
                buffer@,
                |x: int, y: int|
                    if y == row && start <= x < start + i {
                        Some(line@[x - start])
                    } else {
                        None
                    },
            ),
        decreases line.len() - i,
    {
        proof {
            reveal(laid_over);
        }
        set_cell(buffer, start + i, row, line[i]);
        i += 1;
    }
}

/// A grid of `height` rows of `width` spaces.
pub fn blank_canvas(width: usize, height: usize) -> (canvas: Vec<Vec<char>>)
    ensures
        canvas.len() == height,
        forall|y: int| 0 <= y < height ==> (#[trigger] canvas[y]).len() == width,
        forall|x: int, y: int| 0 <= y < height && 0 <= x < width ==> #[trigger] canvas[y]@[x] == ' ',
{
    let mut canvas: Vec<Vec<char>> = Vec::new();
    let mut y: usize = 0;
    while y < height
        invariant
            y <= height,
            canvas.len() == y,
            forall|r: int| 0 <= r < y ==> (#[trigger] canvas[r]).len() == width,
            forall|x: int, r: int| 0 <= r < y && 0 <= x < width ==> #[trigger] canvas[r]@[x] == ' ',
        decreases height - y,
    {
        let mut row: Vec<char> = Vec::new();
        let mut x: usize = 0;
        while x < width
            invariant
                x <= width,
                row.len() == x,
                forall|c: int| 0 <= c < x ==> #[trigger] row@[c] == ' ',
            decreases width - x,
        {
            row.push(' ');
            x += 1;
        }
        canvas.push(row);
        y += 1;
    }
    canvas
}

/// The rows of `canvas` as text, a line for each.
pub fn text_of(canvas: &Vec<Vec<char>>) -> (text: String)
    ensures
        text@ == join_lines(char_rows(canvas@)),
{
    let ghost rows = char_rows(canvas@);
    let mut text = String::new();
    let mut y: usize = 0;
    while y < canvas.len()
        invariant
            y <= canvas.len(),
            rows == char_rows(canvas@),
            text@ == join_lines(rows.take(y as int)),
        decreases canvas.len() - y,
    {
        if y > 0 {
            text.push('\n');
        }
        let ghost begun = text@;
        let row = &canvas[y];
        let mut x: usize = 0;
        while x < row.len()
            invariant
                x <= row.len(),
                text@ == begun + row@.take(x as int),
            decreases row.len() - x,
        {
            text.push(row[x]);
            proof {
                assert(row@.take(x + 1) =~= row@.take(x as int).push(row@[x as int]));
            }
            x += 1;
        }
        proof {
            assert(row@.take(x as int) =~= row@);
            assert(rows.take(y + 1).drop_last() =~= rows.take(y as int));
            assert(rows.take(y + 1).last() == row@);
            if y == 0 {
                assert(begun + row@ =~= row@);
                assert(rows.take(1)[0] == row@);
            }
        }
        y += 1;
    }
    proof {
        assert(rows.take(y as int) =~= rows);
    }
    text
}

} // verus!
