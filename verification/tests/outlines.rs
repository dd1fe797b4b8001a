use astree::cli::Command;
use astree::cli::HorizontalArgs;
use astree::cli::VerticalArgs;
use astree::parser::parse_line;
use astree::parser::parse_markdown;
use astree::parser::wrap_line;
use astree::tree::horizontal::print_nodes;
use astree::tree::style::BoxDrawings;
use astree::tree::style::Style;
use astree::tree::tree_node::TreeNode;
use astree::tree::vertical::render;

fn listed(roots: &Vec<TreeNode>) -> String {
    let mut output = String::new();
    print_nodes(roots, &mut output);
    output
}

fn labels(nodes: &Vec<TreeNode>) -> Vec<&str> {
    nodes.iter().map(|node| node.label.as_str()).collect()
}

#[test]
fn from_label_has_no_children() {
    let node = TreeNode::from_label("leaf");
    assert_eq!(node.label, "leaf");
    assert!(node.children.is_empty());
}

#[test]
fn new_keeps_the_children_in_order() {
    let node = TreeNode::new("top", vec![TreeNode::from_label("a"), TreeNode::from_label("b")]);
    assert_eq!(node.label, "top");
    assert_eq!(labels(&node.children), vec!["a", "b"]);
}

#[test]
fn wrap_without_width_changes_nothing() {
    assert_eq!(wrap_line("boxes and lines", None), "boxes and lines");
    assert_eq!(wrap_line("", None), "");
}

#[test]
fn wrap_breaks_where_the_line_would_reach_the_width() {
    assert_eq!(wrap_line("aa bb cc", Some(5)), "aa\nbb\ncc");
    assert_eq!(wrap_line("aa bb cc", Some(6)), "aa bb\ncc");
    assert_eq!(wrap_line("aa bb cc", Some(8)), "aa bb\ncc");
    assert_eq!(wrap_line("aa bb cc", Some(9)), "aa bb cc");
    assert_eq!(wrap_line("aa bb cc", Some(0)), "aa\nbb\ncc");
}

#[test]
fn wrap_keeps_every_space_that_it_does_not_break_at() {
    assert_eq!(wrap_line("", Some(3)), "");
    assert_eq!(wrap_line(" a", Some(1)), " a");
    assert_eq!(wrap_line("a  b", Some(100)), "a  b");
    // The empty word between the two spaces begins a line of its own, on
    // which the next word follows it after a space.
    assert_eq!(wrap_line("a  b", Some(2)), "a\n b");
}

#[test]
fn wrap_counts_bytes() {
    // Each word is two characters and four bytes long.
    assert_eq!(wrap_line("éé éé", Some(9)), "éé\néé");
    assert_eq!(wrap_line("éé éé", Some(10)), "éé éé");
}

#[test]
fn parse_line_counts_markers_and_trims_the_label() {
    assert_eq!(parse_line("### deep", None), (3, "deep".to_owned()));
    assert_eq!(parse_line("#\tTabbed\u{a0}", None), (1, "Tabbed".to_owned()));
    assert_eq!(parse_line("## boxes and lines", Some(10)), (2, "boxes and\nlines".to_owned()));
}

#[test]
fn parse_line_stops_the_label_at_the_next_marker() {
    assert_eq!(parse_line("#a#b", None), (1, "a".to_owned()));
    assert_eq!(parse_line("# C# and more", None), (1, "C".to_owned()));
}

#[test]
fn parse_line_takes_the_first_two_runs_whatever_they_are() {
    assert_eq!(parse_line("ab##", None), (2, "##".to_owned()));
    assert_eq!(parse_line("é#", None), (2, "#".to_owned()));
}

#[test]
fn parse_of_nothing_is_no_roots() {
    assert!(parse_markdown("".to_string(), None).is_empty());
    assert!(parse_markdown("\n  \n\t\n".to_string(), None).is_empty());
    assert!(parse_markdown("no title line\nat all".to_string(), None).is_empty());
}

#[test]
fn parse_nests_by_depth() {
    let nodes = parse_markdown("#A\n##B\n###C\n##D\n#E\n##F".to_string(), None);
    assert_eq!(labels(&nodes), vec!["A", "E"]);
    assert_eq!(labels(&nodes[0].children), vec!["B", "D"]);
    assert_eq!(labels(&nodes[0].children[0].children), vec!["C"]);
    assert!(nodes[0].children[1].children.is_empty());
    assert_eq!(labels(&nodes[1].children), vec!["F"]);
}

#[test]
fn parse_takes_a_jump_in_depth_as_one_level() {
    let nodes = parse_markdown("#A\n####B\n####C".to_string(), None);
    assert_eq!(labels(&nodes), vec!["A"]);
    assert_eq!(labels(&nodes[0].children), vec!["B", "C"]);
}

#[test]
fn parse_lets_later_children_replace_deeper_earlier_ones() {
    let nodes = parse_markdown("#A\n###C\n##B".to_string(), None);
    assert_eq!(labels(&nodes), vec!["A"]);
    assert_eq!(labels(&nodes[0].children), vec!["B"]);
    assert!(nodes[0].children[0].children.is_empty());
}

#[test]
fn parse_gives_a_line_of_markers_an_empty_label() {
    let nodes = parse_markdown("#A\n##\n##B".to_string(), None);
    assert_eq!(labels(&nodes), vec!["A"]);
    assert_eq!(labels(&nodes[0].children), vec!["", "B"]);
}

#[test]
fn parse_continues_labels_with_escaped_breaks() {
    let nodes = parse_markdown("ignored\n# A\n one \n\n two\n## B\nthree".to_string(), None);
    assert_eq!(labels(&nodes), vec!["A\\none\\ntwo"]);
    assert_eq!(labels(&nodes[0].children), vec!["B\\nthree"]);
}

#[test]
fn parse_wraps_title_lines_only() {
    let nodes = parse_markdown("# boxes and lines\nmore boxes and lines".to_string(), Some(10));
    assert_eq!(labels(&nodes), vec!["boxes and\nlines\\nmore boxes and lines"]);
}

#[test]
fn listing_of_nothing_is_empty() {
    assert_eq!(listed(&vec![]), "");
}

#[test]
fn listing_heads_a_single_root_with_its_label() {
    let roots = parse_markdown("#Root\n##Child 1\n###Grandchild\n##Child 2".to_string(), None);
    assert_eq!(listed(&roots), "Root\n├─ Child 1\n│  └─ Grandchild\n└─ Child 2\n");
}

#[test]
fn listing_hangs_a_forest_from_a_dot() {
    let roots = vec![
        TreeNode::new(
            "Root 1",
            vec![TreeNode::from_label("Child 1"), TreeNode::from_label("Child 2")],
        ),
        TreeNode::new(
            "Root 2",
            vec![TreeNode::new("Child 3", vec![TreeNode::from_label("Leaf")])],
        ),
    ];
    assert_eq!(
        listed(&roots),
        ".\n├─ Root 1\n│  ├─ Child 1\n│  └─ Child 2\n└─ Root 2\n   └─ Child 3\n      └─ Leaf\n"
    );
}

#[test]
fn listing_is_added_to_what_the_output_holds() {
    let mut output = "before\n".to_string();
    print_nodes(&vec![TreeNode::from_label("Root")], &mut output);
    assert_eq!(output, "before\nRoot\n");
}

#[test]
fn horizontal_command_lists_the_outline() {
    let args = HorizontalArgs { input: "unused".to_string() };
    assert_eq!(args.run("# A\n# B\n## C".to_string()), ".\n├─ A\n└─ B\n   └─ C\n");
    let command = Command::H(HorizontalArgs { input: "unused".to_string() });
    assert_eq!(command.run("# A".to_string()), Some("A\n".to_string()));
    let command = Command::Horizontal(HorizontalArgs { input: "unused".to_string() });
    assert_eq!(command.run("".to_string()), Some("".to_string()));
}

#[test]
fn vertical_command_draws_every_root() {
    let args = VerticalArgs {
        style: Style::Double,
        input: "unused".to_string(),
        width: None,
        spacing: 2,
    };
    let content = "# A\n## B\n# C".to_string();
    let roots = parse_markdown(content.clone(), None);
    let style = BoxDrawings::new(Style::Double);
    let expected = format!("{}\n{}\n", render(&roots[0], &style, 2), render(&roots[1], &style, 2));
    assert_eq!(args.run(content.clone()), Some(expected.clone()));
    assert_eq!(
        expected,
        "╔═══╗\n║ A ║\n╚═╦═╝\n╔═╩═╗\n║ B ║\n╚═══╝\n╔═══╗\n║ C ║\n╚═══╝\n"
    );
    let command = Command::V(VerticalArgs {
        style: Style::Double,
        input: "unused".to_string(),
        width: None,
        spacing: 2,
    });
    assert_eq!(command.run(content), Some(expected));
}

#[test]
fn vertical_command_of_nothing_draws_nothing() {
    let command = Command::Vertical(VerticalArgs {
        style: Style::Thin,
        input: "unused".to_string(),
        width: None,
        spacing: 2,
    });
    assert_eq!(command.run("".to_string()), Some("".to_string()));
}

#[test]
fn vertical_command_wraps_labels_to_the_width() {
    let args = VerticalArgs {
        style: Style::Thin,
        input: "unused".to_string(),
        width: Some(10),
        spacing: 2,
    };
    assert_eq!(
        args.run("# boxes and lines".to_string()),
        Some("┌───────────┐\n│ boxes and │\n│   lines   │\n└───────────┘\n".to_string())
    );
}

#[test]
fn vertical_command_refuses_a_span_that_does_not_fit() {
    let args = VerticalArgs {
        style: Style::Thin,
        input: "unused".to_string(),
        width: None,
        spacing: usize::MAX,
    };
    assert_eq!(args.run("# A\n## B\n## C".to_string()), None);
    assert!(args.run("# A\n## B".to_string()).is_some());
}
