use astree::tree::style::BoxDrawings;
use astree::tree::style::Style;
use astree::tree::tree_node::TreeNode;
use astree::tree::vertical::render;
use astree::tree::vertical::DrawableTreeNode;
use astree::tree::vertical::Point2D;

fn thin() -> BoxDrawings {
    BoxDrawings::new(Style::Thin)
}

fn rows(lines: Vec<&str>) -> String {
    lines.join("\n")
}

fn sample_trees() -> Vec<TreeNode> {
    vec![
        TreeNode::from_label("root"),
        TreeNode::from_label(""),
        TreeNode::new("root", vec![TreeNode::from_label("child1")]),
        TreeNode::new(
            "a long root node",
            vec![TreeNode::from_label("a"), TreeNode::from_label("b"), TreeNode::from_label("c")],
        ),
        TreeNode::new(
            "r",
            vec![
                TreeNode::new("one\\ntwo\\nthree", vec![TreeNode::from_label("x")]),
                TreeNode::from_label("second child"),
                TreeNode::new(
                    "3",
                    vec![
                        TreeNode::from_label("a"),
                        TreeNode::from_label("b"),
                        TreeNode::from_label("c"),
                        TreeNode::from_label("d"),
                    ],
                ),
            ],
        ),
    ]
}

fn check_containment(node: &DrawableTreeNode) {
    assert!(node.overall_width >= node.width);
    assert!(node.overall_height >= node.height);
    assert!(node.center_x < node.overall_width);
    assert!(node.center_x >= (node.width - 1) / 2);
    for child in &node.children {
        assert!(child.overall_width <= node.overall_width);
        assert!(child.overall_height < node.overall_height);
        check_containment(child);
    }
}

#[test]
fn span_contains_box_at_every_node() {
    for spacing in [0usize, 1, 2, 5] {
        for tree in sample_trees() {
            check_containment(&DrawableTreeNode::new(&tree, spacing));
        }
    }
}

#[test]
fn output_has_the_size_of_the_span() {
    for spacing in [0usize, 1, 2, 5] {
        for tree in sample_trees() {
            let drawable = DrawableTreeNode::new(&tree, spacing);
            let text = drawable.render(&thin(), spacing);
            let lines: Vec<&str> = text.split('\n').collect();
            assert_eq!(lines.len(), drawable.overall_height);
            for line in lines {
                assert_eq!(line.chars().count(), drawable.overall_width);
            }
        }
    }
}

#[test]
fn rendering_twice_gives_the_same_text() {
    for tree in sample_trees() {
        let drawable = DrawableTreeNode::new(&tree, 2);
        let first = drawable.render(&thin(), 2);
        let second = drawable.render(&thin(), 2);
        assert_eq!(first, second);
        assert_eq!(first, render(&tree, &thin(), 2));
    }
}

#[test]
fn single_root_is_a_box_of_three_rows() {
    let text = render(&TreeNode::from_label("root"), &thin(), 2);
    assert_eq!(text, "┌──────┐\n│ root │\n└──────┘");
}

#[test]
fn empty_label_gives_the_smallest_box() {
    let drawable = DrawableTreeNode::new(&TreeNode::from_label(""), 2);
    assert_eq!(drawable.width, 4);
    assert_eq!(drawable.height, 3);
    assert_eq!(drawable.center_x, 1);
    assert_eq!(drawable.render(&thin(), 2), "┌──┐\n│  │\n└──┘");
}

#[test]
fn two_children_hang_from_a_bar() {
    let root = TreeNode::new(
        "root",
        vec![TreeNode::from_label("child1"), TreeNode::from_label("child2")],
    );
    let drawable = DrawableTreeNode::new(&root, 2);
    assert_eq!(drawable.overall_width, 2 * 10 + 2);
    assert_eq!(drawable.overall_height, 3 + 1 + 3);
    assert_eq!(drawable.center_x, 10);
    assert_eq!(
        drawable.render(&thin(), 2),
        rows(vec![
            "       ┌──────┐       ",
            "       │ root │       ",
            "       └──┬───┘       ",
            "    ┌─────┴─────┐     ",
            "┌───┴────┐  ┌───┴────┐",
            "│ child1 │  │ child2 │",
            "└────────┘  └────────┘",
        ])
    );
}

#[test]
fn two_boxes_of_eight_columns_take_eighteen() {
    let root = TreeNode::new("root", vec![TreeNode::from_label("left"), TreeNode::from_label("rite")]);
    let drawable = DrawableTreeNode::new(&root, 2);
    assert_eq!(drawable.children[0].width, 8);
    assert_eq!(drawable.children[1].width, 8);
    assert_eq!(drawable.overall_width, 2 * 8 + 2);
    assert_eq!(
        drawable.render(&thin(), 2),
        rows(vec![
            "     ┌──────┐     ",
            "     │ root │     ",
            "     └──┬───┘     ",
            "   ┌────┴────┐    ",
            "┌──┴───┐  ┌──┴───┐",
            "│ left │  │ rite │",
            "└──────┘  └──────┘",
        ])
    );
}

#[test]
fn wide_parent_over_three_narrow_children() {
    let root = TreeNode::new(
        "a long root node",
        vec![TreeNode::from_label("a"), TreeNode::from_label("b"), TreeNode::from_label("c")],
    );
    let drawable = DrawableTreeNode::new(&root, 2);
    assert_eq!(drawable.overall_width, 20);
    assert_eq!(drawable.center_x, 9);
    assert_eq!(drawable.children_left_offset, 0);
    assert_eq!(
        drawable.render(&thin(), 2),
        rows(vec![
            "┌──────────────────┐",
            "│ a long root node │",
            "└────────┬─────────┘",
            "  ┌──────┼──────┐   ",
            "┌─┴─┐  ┌─┴─┐  ┌─┴─┐ ",
            "│ a │  │ b │  │ c │ ",
            "└───┘  └───┘  └───┘ ",
        ])
    );
}

#[test]
fn wide_parent_moves_a_single_child_right() {
    let root = TreeNode::new("a long root node", vec![TreeNode::from_label("child")]);
    let drawable = DrawableTreeNode::new(&root, 2);
    assert_eq!(drawable.children_left_offset, 5);
    assert_eq!(drawable.overall_height, 6);
    assert_eq!(
        drawable.render(&thin(), 2),
        rows(vec![
            "┌──────────────────┐",
            "│ a long root node │",
            "└────────┬─────────┘",
            "     ┌───┴───┐      ",
            "     │ child │      ",
            "     └───────┘      ",
        ])
    );
}

#[test]
fn parent_is_centred_between_the_outer_centre_lines() {
    let root = TreeNode::new(
        "L1 A Very Looong Label",
        vec![TreeNode::from_label("L2A"), TreeNode::from_label("L2B Long Label")],
    );
    let drawable = DrawableTreeNode::new(&root, 2);
    // The centre lines of the children are on columns 3 and 17 of their
    // common span; midway is column 10, which the box's own centre, 12,
    // moves two columns to the right.
    assert_eq!(drawable.center_x, 12);
    assert_eq!(drawable.children_left_offset, 2);
    assert_eq!(drawable.overall_width, 29);
    assert_eq!(
        drawable.render(&thin(), 2),
        rows(vec![
            "┌────────────────────────┐   ",
            "│ L1 A Very Looong Label │   ",
            "└───────────┬────────────┘   ",
            "     ┌──────┴──────┐         ",
            "  ┌──┴──┐  ┌───────┴────────┐",
            "  │ L2A │  │ L2B Long Label │",
            "  └─────┘  └────────────────┘",
        ])
    );
}

#[test]
fn narrow_parent_is_centred_over_unequal_children() {
    let root = TreeNode::new(
        "r",
        vec![TreeNode::from_label("L2A"), TreeNode::from_label("L2B Long Label")],
    );
    let drawable = DrawableTreeNode::new(&root, 2);
    assert_eq!(drawable.center_x, 10);
    assert_eq!(drawable.children_left_offset, 0);
    assert_eq!(
        drawable.render(&thin(), 2),
        rows(vec![
            "        ┌───┐              ",
            "        │ r │              ",
            "        └─┬─┘              ",
            "   ┌──────┴──────┐         ",
            "┌──┴──┐  ┌───────┴────────┐",
            "│ L2A │  │ L2B Long Label │",
            "└─────┘  └────────────────┘",
        ])
    );
}

#[test]
fn four_children_branch_off_the_bar() {
    let root = TreeNode::new(
        "root",
        vec![
            TreeNode::from_label("a"),
            TreeNode::from_label("b"),
            TreeNode::from_label("c"),
            TreeNode::from_label("d"),
        ],
    );
    assert_eq!(
        render(&root, &thin(), 2),
        rows(vec![
            "         ┌──────┐         ",
            "         │ root │         ",
            "         └──┬───┘         ",
            "  ┌──────┬──┴───┬──────┐  ",
            "┌─┴─┐  ┌─┴─┐  ┌─┴─┐  ┌─┴─┐",
            "│ a │  │ b │  │ c │  │ d │",
            "└───┘  └───┘  └───┘  └───┘",
        ])
    );
}

#[test]
fn lines_of_a_label_are_stacked_and_centred() {
    let text = render(&TreeNode::from_label("a\\nlonger line\\nmid"), &thin(), 2);
    assert_eq!(
        text,
        rows(vec![
            "┌─────────────┐",
            "│      a      │",
            "│ longer line │",
            "│     mid     │",
            "└─────────────┘",
        ])
    );
}

#[test]
fn line_feed_breaks_a_label_too() {
    let escaped = render(&TreeNode::from_label("Root\\nNode"), &thin(), 2);
    let fed = render(&TreeNode::from_label("Root\nNode"), &thin(), 2);
    assert_eq!(escaped, fed);
    assert_eq!(fed, "┌──────┐\n│ Root │\n│ Node │\n└──────┘");
}

#[test]
fn label_ending_in_a_break_has_an_empty_last_line() {
    let text = render(&TreeNode::from_label("ab\\n"), &thin(), 2);
    assert_eq!(text, "┌────┐\n│ ab │\n│    │\n└────┘");
}

#[test]
fn box_is_as_wide_as_the_bytes_of_the_label() {
    // Two characters of two bytes each: the box is made for four columns of
    // text, and the label begins where four columns would be centred.
    let drawable = DrawableTreeNode::new(&TreeNode::from_label("éé"), 2);
    assert_eq!(drawable.width, 8);
    assert_eq!(drawable.render(&thin(), 2), "┌──────┐\n│ éé   │\n└──────┘");
}

#[test]
fn spacing_sets_the_gap_between_siblings() {
    let root = TreeNode::new("r", vec![TreeNode::from_label("a"), TreeNode::from_label("b")]);
    assert_eq!(DrawableTreeNode::new(&root, 0).overall_width, 10);
    assert_eq!(DrawableTreeNode::new(&root, 7).overall_width, 17);
    assert_eq!(
        render(&root, &thin(), 0),
        rows(vec![
            "  ┌───┐   ",
            "  │ r │   ",
            "  └─┬─┘   ",
            "  ┌─┴──┐  ",
            "┌─┴─┐┌─┴─┐",
            "│ a ││ b │",
            "└───┘└───┘",
        ])
    );
}

#[test]
fn connections_can_have_glyphs_of_their_own() {
    let root = TreeNode::new("root", vec![TreeNode::from_label("child1")]);
    assert_eq!(
        render(&root, &BoxDrawings::new(Style::Balloon2), 2),
        rows(vec![
            " ╭──────╮ ",
            " │ root │ ",
            " ╰──¤───╯ ",
            "╭───¤────╮",
            "│ child1 │",
            "╰────────╯",
        ])
    );
}

#[test]
fn try_new_gives_the_layout_where_it_fits() {
    let root = TreeNode::new("root", vec![TreeNode::from_label("a"), TreeNode::from_label("b")]);
    let tried = DrawableTreeNode::try_new(&root, 2).expect("fits");
    let made = DrawableTreeNode::new(&root, 2);
    assert_eq!(tried.overall_width, made.overall_width);
    assert_eq!(tried.overall_height, made.overall_height);
    assert_eq!(tried.render(&thin(), 2), made.render(&thin(), 2));
}

#[test]
fn try_new_refuses_a_span_that_does_not_fit() {
    let root = TreeNode::new("root", vec![TreeNode::from_label("a"), TreeNode::from_label("b")]);
    assert!(DrawableTreeNode::try_new(&root, usize::MAX).is_none());
    // Two boxes of five columns: with ten columns less than `usize::MAX`
    // between them the span is `usize::MAX` columns wide, and fits.
    assert!(DrawableTreeNode::try_new(&root, usize::MAX - 9).is_none());
    let widest = DrawableTreeNode::try_new(&root, usize::MAX - 10).expect("fits");
    assert_eq!(widest.overall_width, usize::MAX);
    // With one child there is no gap, and the spacing does not count.
    let single = TreeNode::new("root", vec![TreeNode::from_label("a")]);
    assert!(DrawableTreeNode::try_new(&single, usize::MAX).is_some());
}

#[test]
fn zero_is_the_top_left_cell() {
    let origin = Point2D::zero();
    assert_eq!(origin.x, 0);
    assert_eq!(origin.y, 0);
    assert_eq!(origin, Point2D { x: 0, y: 0 });
    assert_ne!(origin, Point2D { x: 0, y: 1 });
}

#[test]
fn every_style_has_its_glyphs() {
    let thin = BoxDrawings::new(Style::Thin);
    assert_eq!(
        (thin.up_and_left, thin.up_and_right, thin.down_and_left, thin.down_and_right),
        ('┌', '┐', '└', '┘')
    );
    assert_eq!((thin.vertical, thin.horizontal), ('│', '─'));
    assert_eq!(
        (thin.vertical_and_horizontal, thin.down_and_horizontal, thin.up_and_horizontal),
        ('┼', '┬', '┴')
    );
    assert_eq!((thin.top_connection, thin.bottom_connection), (None, None));
    let thick = BoxDrawings::new(Style::Thick);
    assert_eq!(
        (thick.up_and_left, thick.up_and_right, thick.down_and_left, thick.down_and_right),
        ('┏', '┓', '┗', '┛')
    );
    assert_eq!((thick.vertical, thick.horizontal), ('┃', '━'));
    assert_eq!(
        (thick.vertical_and_horizontal, thick.down_and_horizontal, thick.up_and_horizontal),
        ('╋', '┳', '┻')
    );
    let double = BoxDrawings::new(Style::Double);
    assert_eq!(
        (double.up_and_left, double.up_and_right, double.down_and_left, double.down_and_right),
        ('╔', '╗', '╚', '╝')
    );
    assert_eq!((double.vertical, double.horizontal), ('║', '═'));
    assert_eq!(
        (double.vertical_and_horizontal, double.down_and_horizontal, double.up_and_horizontal),
        ('╬', '╦', '╩')
    );
    let chest = BoxDrawings::new(Style::Chest);
    assert_eq!(
        (chest.up_and_left, chest.up_and_right, chest.down_and_left, chest.down_and_right),
        ('╔', '╗', '╚', '╝')
    );
    assert_eq!((chest.vertical, chest.horizontal), ('┃', '━'));
    assert_eq!(
        (chest.vertical_and_horizontal, chest.down_and_horizontal, chest.up_and_horizontal),
        ('╋', '┳', '┻')
    );
    let balloon = BoxDrawings::new(Style::Balloon);
    assert_eq!(
        (balloon.up_and_left, balloon.up_and_right, balloon.down_and_left, balloon.down_and_right),
        ('╭', '╮', '╰', '╯')
    );
    assert_eq!((balloon.vertical, balloon.horizontal), ('│', '─'));
    assert_eq!((balloon.top_connection, balloon.bottom_connection), (None, None));
    let balloon2 = BoxDrawings::new(Style::Balloon2);
    assert_eq!(
        (balloon2.up_and_left, balloon2.up_and_right, balloon2.down_and_left, balloon2.down_and_right),
        ('╭', '╮', '╰', '╯')
    );
    assert_eq!((balloon2.top_connection, balloon2.bottom_connection), (Some('¤'), Some('¤')));
}
