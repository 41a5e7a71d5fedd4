use scaffold::parser::{parse_tab_based, parse_tree_based, parse_tree_line, Entry};

fn expect(line: &str, depth: usize, name: &str, is_dir: bool) {
    let e: Entry = parse_tree_line(line).expect("line should yield a record");
    assert_eq!(e.depth, depth, "depth of {:?}", line);
    assert_eq!(e.name, name, "name of {:?}", line);
    assert_eq!(e.is_dir, is_dir, "kind of {:?}", line);
}

#[test]
fn blank_lines_yield_no_record() {
    assert!(parse_tree_line("").is_none());
    assert!(parse_tree_line("   ").is_none());
    assert!(parse_tree_line("\t\t").is_none());
    assert!(parse_tree_line(" \t \r").is_none());
}

#[test]
fn unusual_whitespace_counts_as_blank() {
    assert!(parse_tree_line("\u{C}").is_none());
    assert!(parse_tree_line("\u{B}\u{C}").is_none());
    assert!(parse_tree_line("\u{A0}\u{2003}\u{3000}").is_none());
    assert!(parse_tree_line("\u{2028}").is_none());
    assert!(parse_tree_line("\u{A0}│\u{A0}").is_none());
}

#[test]
fn unusual_whitespace_is_trimmed_from_names() {
    expect("\u{2003}x\u{2003}", 0, "x", false);
    expect("a\u{A0}", 0, "a", false);
}

#[test]
fn lone_vertical_bar_yields_no_record() {
    assert!(parse_tree_line("│").is_none());
    assert!(parse_tree_line("  │  ").is_none());
    assert!(parse_tree_line("\t│").is_none());
}

#[test]
fn comment_only_line_yields_no_record() {
    assert!(parse_tree_line("# comment").is_none());
    assert!(parse_tree_line("#").is_none());
    assert!(parse_tree_line("   # indented comment").is_none());
}

#[test]
fn comment_is_stripped_before_parsing() {
    expect("src/ # the sources", 0, "src", true);
    expect("├── a.txt # keep", 1, "a.txt", false);
    assert!(parse_tree_line("│   # only a guide").is_none());
}

#[test]
fn indent_dialect_depths() {
    expect("name", 0, "name", false);
    expect("\tname", 1, "name", false);
    expect("\t\tdeep.txt", 2, "deep.txt", false);
    expect("\t    two", 2, "two", false);
    expect("        eight", 2, "eight", false);
}

#[test]
fn short_space_runs_are_absorbed() {
    expect("   three", 0, "three", false);
    expect(" one", 0, "one", false);
    expect("     five", 1, "five", false);
}

#[test]
fn tab_parser_returns_depth_and_trimmed_name() {
    let (depth, name) = parse_tab_based("    a  ");
    assert_eq!(depth, 1);
    assert_eq!(name, "a");
    let (depth, name) = parse_tab_based("\t\t  b");
    assert_eq!(depth, 2);
    assert_eq!(name, "b");
}

#[test]
fn tree_dialect_depths() {
    expect("├── src/", 1, "src", true);
    expect("└── done", 1, "done", false);
    expect("│   ├── inner.rs", 2, "inner.rs", false);
    expect("│   └── last/", 2, "last", true);
    expect("│   │   └── deep.txt", 3, "deep.txt", false);
}

#[test]
fn bar_then_corner_has_depth_two() {
    expect("│└x", 2, "x", false);
    expect("│   └── y", 2, "y", false);
}

#[test]
fn tree_parser_returns_depth_and_trimmed_name() {
    let (depth, name) = parse_tree_based("├── a ");
    assert_eq!(depth, 1);
    assert_eq!(name, "a");
    let (depth, name) = parse_tree_based("│   │   c");
    assert_eq!(depth, 2);
    assert_eq!(name, "c");
}

#[test]
fn root_line_without_indent() {
    expect("project/", 0, "project", true);
}

#[test]
fn directory_marker_is_stripped() {
    expect("a/", 0, "a", true);
    expect("b", 0, "b", false);
    // only the marker itself is stripped; further separators stay
    expect("a//", 0, "a/", true);
}

#[test]
fn slashes_only_lose_one_separator() {
    expect("///", 0, "//", true);
}

#[test]
fn connector_anywhere_selects_tree_dialect() {
    expect("    ├── x", 1, "x", false);
    // a tab is no tree character, so the walk stops at once and the
    // connectors end up in the name
    expect("\t└── y", 0, "└── y", false);
}

#[test]
fn name_is_trimmed() {
    expect("  spaced name  ", 0, "spaced name", false);
}
