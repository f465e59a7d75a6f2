use vault_hunter::listing::KeyOrDir;
use vault_hunter::traverse::{entries_ok, component_ok, search_tree, Traversal};
use vault_hunter::tree::{TreeChild, TreeNode};

fn key(n: &str) -> TreeChild {
    TreeChild::Key(String::from(n))
}

fn dir(n: &str, entries: Vec<TreeChild>) -> TreeChild {
    TreeChild::Dir(String::from(n), TreeNode { entries })
}

fn rendered(paths: Vec<vault_hunter::path::Path>) -> Vec<String> {
    paths.iter().map(|p| p.render()).collect()
}

#[test]
fn search_finds_the_nested_leaf_exactly() {
    // Tree {"a/b": {...}, "c": {...}}: one directory `a` holding leaf `b`,
    // one root leaf `c`.
    let tree = TreeNode { entries: vec![dir("a", vec![key("b")]), key("c")] };
    assert_eq!(rendered(search_tree(&tree, "b")), vec!["a/b"]);
}

#[test]
fn empty_pattern_returns_every_leaf() {
    let tree = TreeNode { entries: vec![dir("a", vec![key("b")]), key("c")] };
    let mut found = rendered(search_tree(&tree, ""));
    found.sort();
    assert_eq!(found, vec!["a/b", "c"]);
}

#[test]
fn empty_pattern_reaches_every_depth() {
    let tree = TreeNode {
        entries: vec![
            key("top"),
            dir(
                "one",
                vec![key("mid"), dir("two", vec![dir("three", vec![key("deep")]), key("low")])],
            ),
        ],
    };
    let mut found = rendered(search_tree(&tree, ""));
    found.sort();
    assert_eq!(found, vec!["one/mid", "one/two/low", "one/two/three/deep", "top"]);
}

#[test]
fn search_is_case_insensitive_across_the_tree() {
    let tree = TreeNode { entries: vec![dir("personal", vec![key("Email"), key("Bank")])] };
    assert_eq!(rendered(search_tree(&tree, "mail")), vec!["personal/Email"]);
}

#[test]
fn traversal_is_breadth_first_and_lists_each_path_once() {
    // Drive the machine by hand against the listing map of
    //   {"a": {"b": leaf, "x": {"y": leaf}}, "c": leaf}
    // and log every path it asks for.
    let mut tr = Traversal::new();
    let mut asked: Vec<String> = Vec::new();
    while !tr.done() {
        let at = tr.current().render();
        asked.push(at.clone());
        let entries: Vec<KeyOrDir> = match at.as_str() {
            "" => vec![
                KeyOrDir::Dir(String::from("a")),
                KeyOrDir::Key(String::from("c")),
            ],
            "a" => vec![
                KeyOrDir::Key(String::from("b")),
                KeyOrDir::Dir(String::from("x")),
            ],
            "a/x" => vec![KeyOrDir::Key(String::from("y"))],
            other => panic!("listed a path that does not exist: {:?}", other),
        };
        assert!(entries_ok(&entries));
        tr.feed(&entries, "");
    }
    // Directories only, breadth-first, no repeats: never the key `c` or `b`.
    assert_eq!(asked, vec!["", "a", "a/x"]);
    let mut found = rendered(tr.results);
    found.sort();
    assert_eq!(found, vec!["a/b", "a/x/y", "c"]);
}

#[test]
fn traversal_collects_only_matching_keys() {
    let mut tr = Traversal::new();
    let entries = vec![
        KeyOrDir::Key(String::from("Email")),
        KeyOrDir::Key(String::from("Bank")),
    ];
    tr.feed(&entries, "mail");
    assert!(tr.done());
    assert_eq!(rendered(tr.results), vec!["Email"]);
}

#[test]
fn empty_tree_yields_nothing() {
    let tree = TreeNode { entries: vec![] };
    assert!(search_tree(&tree, "").is_empty());
    assert!(search_tree(&tree, "x").is_empty());
}

#[test]
fn listings_are_vetted_for_shape() {
    assert!(component_ok("plain"));
    assert!(!component_ok(""));
    assert!(!component_ok("a/b"));
    let fine = vec![
        KeyOrDir::Dir(String::from("a")),
        KeyOrDir::Key(String::from("a")),
        KeyOrDir::Key(String::from("b")),
    ];
    assert!(entries_ok(&fine));
    let dup_dirs = vec![
        KeyOrDir::Dir(String::from("a")),
        KeyOrDir::Dir(String::from("a")),
    ];
    assert!(!entries_ok(&dup_dirs));
    let bad_name = vec![KeyOrDir::Key(String::from("a/b"))];
    assert!(!entries_ok(&bad_name));
}
