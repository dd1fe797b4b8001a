use astree::tree::style::BoxDrawings;
use astree::tree::style::Style;
use astree::tree::tree_node::TreeNode;
use astree::tree::vertical::DrawableTreeNode;

const HORIZONTAL_CHILDREN_SPACING: usize = 2;

fn assert_canonical_eq(left: &str, right: &str) {
    // Remove extra leadings
    let left_rows = remove_leading(left);
    let right_rows = remove_leading(right);

    let max_left_width = left_rows
        .iter()
        .map(|row| row.chars().count())
        .max()
        .unwrap_or(0);
    let max_right_width = right_rows
        .iter()
        .map(|row| row.chars().count())
        .max()
        .unwrap_or(0);

    let mut differ_from_row: Option<usize> = None;
    let mut row_by_row_comparison = vec![];
    for row_idx in 0..std::cmp::max(left_rows.len(), right_rows.len()) {
        let left_row_with_padding = pad_to_width(&left_rows, row_idx, max_left_width);
        let right_row_with_padding = pad_to_width(&right_rows, row_idx, max_right_width);

        let comparison_result: String;
        if left_row_with_padding.trim() != right_row_with_padding.trim()
            && differ_from_row.is_none()
        {
            differ_from_row = Some(row_idx);
            comparison_result = format!(
                "{:5}: {} | {} 👈",
                row_idx, left_row_with_padding, right_row_with_padding
            )
        } else if left_row_with_padding.trim() != right_row_with_padding.trim()
            && differ_from_row.is_none()
        {
            differ_from_row = Some(row_idx);
            comparison_result = format!(
                "{:5}: {} | {} 👈",
                row_idx, left_row_with_padding, right_row_with_padding
            )
        } else {
            comparison_result = format!(
                "{:5}: {} | {}",
                row_idx, left_row_with_padding, right_row_with_padding
            )
        }
        row_by_row_comparison.push(comparison_result);
    }

    assert!(
        differ_from_row.is_none(),
        "\nComparison:\n{}\nLeft:\n{}\nRight:\n{}\n",
        row_by_row_comparison.join("\n"),
        left_rows.join("\n"),
        right_rows.join("\n")
    );
}

fn pad_to_width(rows: &Vec<&str>, idx: usize, width: usize) -> String {
    let output = if idx < rows.len() {
        rows[idx].to_string()
    } else {
        "".to_string()
    };

    //         '<' is for left align
    //          ↑
    format!("{: <width$}", output, width = width)
    //         ↓
    //         using ' ' for padding
}

fn remove_leading(input: &str) -> Vec<&str> {
    // Filter out the empty lines
    let rows: Vec<&str> = input
        .split('\n')
        .filter(|line| line.trim().len() != 0)
        .collect();

    let extra_leading = rows
        .iter()
        .map(|row| row.chars().position(|c| c != ' ').unwrap_or(0))
        .min()
        .unwrap_or(0);

    rows.iter().map(|row| &row[extra_leading..]).collect()
}

fn drawable() -> DrawableTreeNode {
    let child1: TreeNode = TreeNode::from_label("child1");
    let child2: TreeNode = TreeNode::from_label("child2");
    let root: TreeNode = TreeNode::new("root", vec![child1, child2]);
    DrawableTreeNode::new(&root, 2)
}

#[test]
fn vertical_test_root() {
    let root = TreeNode::from_label("root");
    let drawable_root = DrawableTreeNode::new(&root, HORIZONTAL_CHILDREN_SPACING);
    let result = drawable_root.render(&BoxDrawings::new(Style::Thin), HORIZONTAL_CHILDREN_SPACING);
    let expected = r#"
        ┌──────┐
        │ root │
        └──────┘"#;
    assert_canonical_eq(&result, &expected);
}

#[test]
fn vertical_test_root_with_one_child() {
    let child1 = TreeNode::from_label("child1");
    let root = TreeNode::new("root", vec![child1]);

    let drawable_root = DrawableTreeNode::new(&root, HORIZONTAL_CHILDREN_SPACING);
    let result = drawable_root.render(&BoxDrawings::new(Style::Thin), HORIZONTAL_CHILDREN_SPACING);

    let expected = r#"
         ┌──────┐
         │ root │
         └──┬───┘
        ┌───┴────┐
        │ child1 │
        └────────┘"#;
    assert_canonical_eq(&result, &expected);
}

#[test]
fn vertical_test_root_with_two_children() {
    let child1 = TreeNode::from_label("child1");
    let child2 = TreeNode::from_label("child2");
    let root = TreeNode::new("root", vec![child1, child2]);

    let drawable_root = DrawableTreeNode::new(&root, HORIZONTAL_CHILDREN_SPACING);
    let result = drawable_root.render(&BoxDrawings::new(Style::Thin), HORIZONTAL_CHILDREN_SPACING);

    let expected = r#"
               ┌──────┐
               │ root │
               └──┬───┘
            ┌─────┴─────┐
        ┌───┴────┐  ┌───┴────┐
        │ child1 │  │ child2 │
        └────────┘  └────────┘"#;
    assert_canonical_eq(&result, &expected);
}

#[test]
fn vertical_test_root_with_three_children() {
    let child1 = TreeNode::from_label("child1");
    let child2 = TreeNode::from_label("child2");
    let child3 = TreeNode::from_label("child3");
    let root = TreeNode::new("root", vec![child1, child2, child3]);

    let drawable_root = DrawableTreeNode::new(&root, HORIZONTAL_CHILDREN_SPACING);
    let result = drawable_root.render(&BoxDrawings::new(Style::Thin), HORIZONTAL_CHILDREN_SPACING);

    let expected = r#"
                     ┌──────┐
                     │ root │
                     └──┬───┘
            ┌───────────┼───────────┐
        ┌───┴────┐  ┌───┴────┐  ┌───┴────┐
        │ child1 │  │ child2 │  │ child3 │
        └────────┘  └────────┘  └────────┘"#;
    assert_canonical_eq(&result, &expected);
}

#[test]
fn vertical_test_root_with_grandchildren() {
    let grandchild1 = TreeNode::from_label("grandchild1");
    let grandchild2 = TreeNode::from_label("grandchild2");
    let grandchild3 = TreeNode::from_label("grandchild3");

    let child1 = TreeNode::new("child1", vec![grandchild1, grandchild2]);
    let child2 = TreeNode::new("child2", vec![grandchild3]);

    let root = TreeNode::new("root", vec![child1, child2]);

    let drawable_root = DrawableTreeNode::new(&root, HORIZONTAL_CHILDREN_SPACING);
    let result = drawable_root.render(&BoxDrawings::new(Style::Thin), HORIZONTAL_CHILDREN_SPACING);

    let expected = r#"
                                 ┌──────┐
                                 │ root │
                                 └──┬───┘
                       ┌────────────┴────────────┐
                   ┌───┴────┐                ┌───┴────┐
                   │ child1 │                │ child2 │
                   └───┬────┘                └───┬────┘
               ┌───────┴────────┐         ┌──────┴──────┐
        ┌──────┴──────┐  ┌──────┴──────┐  │ grandchild3 │
        │ grandchild1 │  │ grandchild2 │  └─────────────┘
        └─────────────┘  └─────────────┘                 "#;
    assert_canonical_eq(&result, &expected);
}

#[test]
fn vertical_test_multi_line_label() {
    let root = TreeNode::from_label("Root\\nNode");
    let drawable_root = DrawableTreeNode::new(&root, HORIZONTAL_CHILDREN_SPACING);
    let result = drawable_root.render(&BoxDrawings::new(Style::Thin), HORIZONTAL_CHILDREN_SPACING);
    let expected = r#"
        ┌──────┐
        │ Root │
        │ Node │
        └──────┘"#;
    assert_canonical_eq(&result, &expected);
}

#[test]
fn vertical_test_multi_line_label_with_grandchildren() {
    let grandchild1 = TreeNode::from_label("grandchild1\\nnode");
    let grandchild2 = TreeNode::from_label("grandchild2\\nnode");
    let grandchild3 = TreeNode::from_label("grandchild3\\nnode");

    let child1 = TreeNode::new("child1\\nnode", vec![grandchild1, grandchild2]);
    let child2 = TreeNode::new("child2\\nnode", vec![grandchild3]);

    let root = TreeNode::new("root\\nnode", vec![child1, child2]);

    let drawable_root = DrawableTreeNode::new(&root, HORIZONTAL_CHILDREN_SPACING);
    let result = drawable_root.render(&BoxDrawings::new(Style::Thin), HORIZONTAL_CHILDREN_SPACING);

    let expected = r#"
                                 ┌──────┐
                                 │ root │
                                 │ node │
                                 └──┬───┘
                       ┌────────────┴────────────┐
                   ┌───┴────┐                ┌───┴────┐
                   │ child1 │                │ child2 │
                   │  node  │                │  node  │
                   └───┬────┘                └───┬────┘
               ┌───────┴────────┐         ┌──────┴──────┐
        ┌──────┴──────┐  ┌──────┴──────┐  │ grandchild3 │
        │ grandchild1 │  │ grandchild2 │  │    node     │
        │    node     │  │    node     │  └─────────────┘
        └─────────────┘  └─────────────┘                 "#;
    assert_canonical_eq(&result, &expected);
}

#[test]
fn test_parent_wider_than_children() {
    let child1 = TreeNode::from_label("child");
    let root = TreeNode::new("a long root node", vec![child1]);

    let drawable_root = DrawableTreeNode::new(&root, HORIZONTAL_CHILDREN_SPACING);
    let result = drawable_root.render(&BoxDrawings::new(Style::Thin), HORIZONTAL_CHILDREN_SPACING);

    let expected = r#"
        ┌──────────────────┐
        │ a long root node │
        └────────┬─────────┘
             ┌───┴───┐
             │ child │
             └───────┘      "#;
    assert_canonical_eq(&result, &expected);

    let children = vec![TreeNode::from_label("a"), TreeNode::from_label("b")];
    let root = TreeNode::new("a long root node", children);

    let drawable_root = DrawableTreeNode::new(&root, HORIZONTAL_CHILDREN_SPACING);
    let result = drawable_root.render(&BoxDrawings::new(Style::Thin), HORIZONTAL_CHILDREN_SPACING);

    let expected = r#"
        ┌──────────────────┐
        │ a long root node │
        └────────┬─────────┘
              ┌──┴───┐
            ┌─┴─┐  ┌─┴─┐
            │ a │  │ b │
            └───┘  └───┘    "#;
    assert_canonical_eq(&result, &expected);

    let children = vec![
        TreeNode::from_label("a"),
        TreeNode::from_label("b"),
        TreeNode::from_label("c"),
    ];
    let root = TreeNode::new("a long root node", children);

    let drawable_root = DrawableTreeNode::new(&root, HORIZONTAL_CHILDREN_SPACING);
    let result = drawable_root.render(&BoxDrawings::new(Style::Thin), HORIZONTAL_CHILDREN_SPACING);

    let expected = r#"
        ┌──────────────────┐
        │ a long root node │
        └────────┬─────────┘
          ┌──────┼──────┐
        ┌─┴─┐  ┌─┴─┐  ┌─┴─┐
        │ a │  │ b │  │ c │
        └───┘  └───┘  └───┘ "#;
    assert_canonical_eq(&result, &expected);
}

#[test]
fn test_inbalance_children_1() {
    let child_l2a = TreeNode::from_label("L2A");
    let child_l2b = TreeNode::from_label("L2B Long Label");
    let root = TreeNode::new("L1 A Very Looong Label", vec![child_l2a, child_l2b]);

    let drawable_root = DrawableTreeNode::new(&root, HORIZONTAL_CHILDREN_SPACING);
    let result = drawable_root.render(&BoxDrawings::new(Style::Thin), HORIZONTAL_CHILDREN_SPACING);

    let expected = r#"
        ┌────────────────────────┐   
        │ L1 A Very Looong Label │   
        └───────────┬────────────┘   
             ┌──────┴──────┐         
          ┌──┴──┐  ┌───────┴────────┐
          │ L2A │  │ L2B Long Label │
          └─────┘  └────────────────┘"#;
    assert_canonical_eq(&result, &expected);
}

#[test]
fn test_inbalance_children_2() {
    let child_l2a = TreeNode::from_label("L2A Long Label");
    let child_l2b = TreeNode::from_label("L2B");
    let root = TreeNode::new("L1 A Very Looong Label", vec![child_l2a, child_l2b]);

    let drawable_root = DrawableTreeNode::new(&root, HORIZONTAL_CHILDREN_SPACING);
    let result = drawable_root.render(&BoxDrawings::new(Style::Thin), HORIZONTAL_CHILDREN_SPACING);

    let expected = r#"
       ┌────────────────────────┐   
       │ L1 A Very Looong Label │   
       └───────────┬────────────┘   
            ┌──────┴───────┐        
    ┌───────┴────────┐  ┌──┴──┐     
    │ L2A Long Label │  │ L2B │     
    └────────────────┘  └─────┘"#;
    assert_canonical_eq(&result, &expected);
}

#[test]
fn test_style_thin() {
    let drawable = drawable();
    let result = drawable.render(&BoxDrawings::new(Style::Thin), HORIZONTAL_CHILDREN_SPACING);
    let expected = r#"
               ┌──────┐
               │ root │
               └──┬───┘
            ┌─────┴─────┐
        ┌───┴────┐  ┌───┴────┐
        │ child1 │  │ child2 │
        └────────┘  └────────┘"#;
    assert_canonical_eq(&result, &expected);
}

#[test]
fn test_style_thick() {
    let drawable = drawable();
    let result = drawable.render(&BoxDrawings::new(Style::Thick), HORIZONTAL_CHILDREN_SPACING);
    let expected = r#"
               ┏━━━━━━┓
               ┃ root ┃
               ┗━━┳━━━┛
            ┏━━━━━┻━━━━━┓
        ┏━━━┻━━━━┓  ┏━━━┻━━━━┓
        ┃ child1 ┃  ┃ child2 ┃
        ┗━━━━━━━━┛  ┗━━━━━━━━┛"#;
    assert_canonical_eq(&result, &expected);
}

#[test]
fn test_style_double() {
    let drawable = drawable();
    let result = drawable.render(&BoxDrawings::new(Style::Double), HORIZONTAL_CHILDREN_SPACING);
    let expected = r#"
               ╔══════╗
               ║ root ║
               ╚══╦═══╝
            ╔═════╩═════╗
        ╔═══╩════╗  ╔═══╩════╗
        ║ child1 ║  ║ child2 ║
        ╚════════╝  ╚════════╝"#;
    assert_canonical_eq(&result, &expected);
}

#[test]
fn test_style_with_top_connection() {
    let drawable = drawable();
    let result = drawable.render(
        &BoxDrawings {
            up_and_left: '┌',
            up_and_right: '┐',
            down_and_left: '└',
            down_and_right: '┘',
            vertical: '│',
            horizontal: '─',
            vertical_and_horizontal: '┼',
            down_and_horizontal: '┬',
            up_and_horizontal: '┴',
            top_connection: Some('▼'),
            bottom_connection: None,
        },
        HORIZONTAL_CHILDREN_SPACING,
    );
    let expected = r#"
               ┌──────┐
               │ root │
               └──┬───┘
            ┌─────┴─────┐
        ┌───▼────┐  ┌───▼────┐
        │ child1 │  │ child2 │
        └────────┘  └────────┘"#;
    assert_canonical_eq(&result, &expected);
}
