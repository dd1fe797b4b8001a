use astree::parser::parse_line;
use astree::parser::parse_markdown;
use astree::parser::wrap_line;

#[test]
fn test_parse_line() {
    let actual = parse_line("#Root", None);
    assert_eq!(actual, (1, "Root".to_owned()))
}

#[test]
fn test_parse_line_with_with_space() {
    let actual = parse_line("# Hello World ", None);
    assert_eq!(actual, (1, "Hello World".to_owned()))
}

#[test]
fn test_parse_markdown_root() {
    let nodes = parse_markdown("#Root\n".to_string(), None);
    assert_eq!(nodes.len(), 1);
    assert_eq!(nodes[0].label, "Root");
    assert_eq!(nodes[0].children.len(), 0);
}

#[test]
fn test_parse_include_non_title_line() {
    // In other examples, we only parse the title lines of the markdown format.
    // Here, we parse the content as well and automatically include line breaks.
    // This, we believe is slight more usessssr friendly than having to type '\n'.
    let nodes = parse_markdown(
        r#"
            #Root
            hello world
            "#
        .to_string(),
        None,
    );

    assert_eq!(nodes.len(), 1);
    assert_eq!(nodes[0].label, "Root\\nhello world");
}

#[test]
fn test_parse_markdown_root_with_children() {
    let nodes = parse_markdown(
        r#"
            #Root
            ##Child1
            ##Child2
            "#
        .to_string(),
        None,
    );

    assert_eq!(nodes.len(), 1);
    assert_eq!(nodes[0].label, "Root");
    assert_eq!(nodes[0].children.len(), 2);
}

#[test]
fn test_parse_markdown_multiple_roots() {
    let nodes = parse_markdown(
        r#"
            # Root 1
            ## Child 1.1
            ## Child 1.2
            # Root 2
            ## Child 2.1
            "#
        .to_string(),
        None,
    );

    assert_eq!(nodes.len(), 2);
    assert_eq!(nodes[0].label, "Root 1");
    assert_eq!(nodes[0].children.len(), 2);

    assert_eq!(nodes[1].label, "Root 2");
    assert_eq!(nodes[1].children.len(), 1);
    assert_eq!(nodes[1].children[0].label, "Child 2.1");
}

#[test]
fn test_parse_invalid_children() {
    let nodes = parse_markdown(
        r#"
            # Root 1
            ### Child 1.1
            ### Child 1.2
            # Root 2
            "#
        .to_string(),
        None,
    );

    assert_eq!(nodes.len(), 2);
    assert_eq!(nodes[0].label, "Root 1");
    assert_eq!(nodes[0].children.len(), 2);
    assert_eq!(nodes[0].children[0].label, "Child 1.1");
    assert_eq!(nodes[0].children[1].label, "Child 1.2");
    assert_eq!(nodes[1].label, "Root 2");
}

#[test]
fn test_wrap_line() {
    assert_eq!(wrap_line("boxes and lines", Some(10)), "boxes and\nlines");
}

#[test]
fn test_wrap_line_long() {
    assert_eq!(wrap_line("a-very-long-word", Some(5)), "a-very-long-word");
}
