use scaffold::builder::{plan_listing, plan_scaffold, Action};
use scaffold::parser::{parse_tree_line, Entry};

fn entry(depth: usize, name: &str, is_dir: bool) -> Entry {
    Entry { name: name.to_string(), is_dir, depth }
}

fn paths(acts: &[Action]) -> Vec<(Vec<String>, bool)> {
    acts.iter().map(|a| (a.path.clone(), a.is_dir)).collect()
}

fn seg(parts: &[&str]) -> Vec<String> {
    parts.iter().map(|p| p.to_string()).collect()
}

#[test]
fn three_records_scenario() {
    let entries = vec![entry(0, "a", true), entry(1, "b.txt", false), entry(0, "c", true)];
    let acts = plan_scaffold(&entries);
    assert_eq!(
        paths(&acts),
        vec![
            (seg(&["a"]), true),
            (seg(&["a", "b.txt"]), false),
            (seg(&["c"]), true),
        ]
    );
    // in particular, "c" sits beside "a", not inside it
    assert!(acts.iter().all(|a| a.path != seg(&["a", "c"])));
}

#[test]
fn files_do_not_open_a_directory() {
    let entries = vec![
        entry(0, "a", true),
        entry(1, "b", false),
        entry(1, "c.txt", false),
        entry(0, "d", false),
    ];
    let acts = plan_scaffold(&entries);
    assert_eq!(
        paths(&acts),
        vec![
            (seg(&["a"]), true),
            (seg(&["a", "b"]), false),
            (seg(&["a", "c.txt"]), false),
            (seg(&["d"]), false),
        ]
    );
}

#[test]
fn returning_shallower_closes_subtrees() {
    let entries = vec![
        entry(0, "a", true),
        entry(1, "b", true),
        entry(2, "c.txt", false),
        entry(0, "d", true),
        entry(1, "e.txt", false),
    ];
    let acts = plan_scaffold(&entries);
    assert_eq!(
        paths(&acts),
        vec![
            (seg(&["a"]), true),
            (seg(&["a", "b"]), true),
            (seg(&["a", "b", "c.txt"]), false),
            (seg(&["d"]), true),
            (seg(&["d", "e.txt"]), false),
        ]
    );
}

#[test]
fn depth_jump_is_tolerated() {
    // a record deeper than the open prefix is joined against whatever the
    // deepest open directory happens to be
    let entries = vec![entry(0, "a", true), entry(3, "x.txt", false)];
    let acts = plan_scaffold(&entries);
    assert_eq!(
        paths(&acts),
        vec![(seg(&["a"]), true), (seg(&["a", "x.txt"]), false)]
    );
}

#[test]
fn planning_twice_gives_the_same_plan() {
    let entries = vec![
        entry(0, "a", true),
        entry(1, "b.txt", false),
        entry(0, "c", true),
        entry(1, "d", true),
        entry(2, "e.txt", false),
    ];
    let first = plan_scaffold(&entries);
    let second = plan_scaffold(&entries);
    assert_eq!(paths(&first), paths(&second));
}

#[test]
fn listing_to_plan_end_to_end() {
    let listing = [
        "project/",
        "├── src/          # sources",
        "│   ├── main.rs",
        "│   └── util/",
        "│   │   └── io.rs",
        "├── README.md",
        "│",
        "└── tests/",
        "\t\tbasic.rs",
    ];
    let lines: Vec<String> = listing.iter().map(|l| l.to_string()).collect();
    let acts = plan_listing(&lines);

    // the same plan, built by hand from the parsed records
    let mut entries: Vec<Entry> = Vec::new();
    for line in listing.iter() {
        if let Some(e) = parse_tree_line(line) {
            entries.push(e);
        }
    }
    assert_eq!(paths(&acts), paths(&plan_scaffold(&entries)));

    assert_eq!(
        paths(&acts),
        vec![
            (seg(&["project"]), true),
            (seg(&["project", "src"]), true),
            (seg(&["project", "src", "main.rs"]), false),
            (seg(&["project", "src", "util"]), true),
            (seg(&["project", "src", "util", "io.rs"]), false),
            (seg(&["project", "README.md"]), false),
            (seg(&["project", "tests"]), true),
            (seg(&["project", "tests", "basic.rs"]), false),
        ]
    );
}
