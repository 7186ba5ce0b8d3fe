use file_explorer::explorer::{Entry, FileExplorer};
use file_explorer::trie::{SearchResult, TrieNode};

fn segments(parts: &[&str]) -> Vec<String> {
    parts.iter().map(|part| part.to_string()).collect()
}

fn paths(results: &[SearchResult]) -> Vec<&str> {
    results.iter().map(|result| result.path.as_str()).collect()
}

fn search_all(node: &TrieNode, pattern: &str) -> Vec<SearchResult> {
    let mut results = Vec::new();
    node.search_pattern(pattern, &mut results);
    results
}

fn entry(parts: &[&str], is_file: bool, size: u64, modified: i64, full_path: &str) -> Entry {
    Entry { segments: segments(parts), is_file, size, modified, full_path: full_path.to_string() }
}

fn sample() -> FileExplorer {
    let mut explorer = FileExplorer::with_root_time(1_700_000_000);
    explorer.build_from_path(&[
        entry(&["a"], false, 0, 1_600_000_000, "/a"),
        entry(&["a", "b.txt"], true, 100, 1_650_000_000, "/a/b.txt"),
        entry(&["a", "c"], false, 0, 1_660_000_000, "/a/c"),
    ]);
    explorer
}

#[test]
fn new_node_has_no_children_and_keeps_its_metadata() {
    let node = TrieNode::new(true, 42, 7, "/x".to_string());
    let results = search_all(&node, "");
    assert_eq!(results.len(), 1);
    assert_eq!(results[0].path, "/x");
    assert!(results[0].is_file);
    assert_eq!(results[0].size, 42);
    assert_eq!(results[0].modified, 7);
}

#[test]
fn insert_without_components_changes_nothing() {
    let mut root = TrieNode::new(false, 0, 0, ".".to_string());
    root.insert(&[], true, 5, 1, "/ghost".to_string());
    assert_eq!(paths(&search_all(&root, "")), vec!["."]);
}

#[test]
fn insert_creates_one_node_per_component() {
    let mut root = TrieNode::new(false, 0, 0, ".".to_string());
    root.insert(&segments(&["a"]), false, 0, 10, "/a".to_string());
    root.insert(&segments(&["a", "b.txt"]), true, 100, 20, "/a/b.txt".to_string());
    let results = search_all(&root, "");
    assert_eq!(paths(&results), vec![".", "/a", "/a/b.txt"]);
    assert!(!results[1].is_file);
    assert_eq!(results[1].size, 0);
    assert_eq!(results[1].modified, 10);
    assert!(results[2].is_file);
    assert_eq!(results[2].size, 100);
    assert_eq!(results[2].modified, 20);
}

#[test]
fn second_insertion_of_a_path_keeps_the_first_metadata() {
    let mut root = TrieNode::new(false, 0, 0, ".".to_string());
    root.insert(&segments(&["a", "f"]), true, 100, 20, "/a/f".to_string());
    root.insert(&segments(&["a", "f"]), false, 999, 30, "/elsewhere".to_string());
    let results = search_all(&root, "");
    assert_eq!(results.len(), 3);
    assert_eq!(results[2].path, "/a/f");
    assert!(results[2].is_file);
    assert_eq!(results[2].size, 100);
    assert_eq!(results[2].modified, 20);
}

#[test]
fn parents_first_gives_each_directory_its_own_path() {
    let mut root = TrieNode::new(false, 0, 0, ".".to_string());
    root.insert(&segments(&["d"]), false, 0, 1, "/d".to_string());
    root.insert(&segments(&["d", "e"]), false, 0, 2, "/d/e".to_string());
    root.insert(&segments(&["d", "e", "f.rs"]), true, 9, 3, "/d/e/f.rs".to_string());
    let results = search_all(&root, "");
    assert_eq!(paths(&results), vec![".", "/d", "/d/e", "/d/e/f.rs"]);
    assert_eq!(results[1].modified, 1);
    assert_eq!(results[2].modified, 2);
    assert!(!results[1].is_file && !results[2].is_file && results[3].is_file);
}

#[test]
fn child_before_parent_leaves_a_placeholder() {
    let mut root = TrieNode::new(false, 0, 0, ".".to_string());
    root.insert(&segments(&["x", "y"]), true, 5, 8, "/x/y".to_string());
    let results = search_all(&root, "");
    assert_eq!(paths(&results), vec![".", "/x/y", "/x/y"]);
    assert!(!results[1].is_file);
    assert_eq!(results[1].size, 0);
    assert_eq!(results[1].modified, 8);
    assert!(results[2].is_file);
    assert_eq!(results[2].size, 5);
    root.insert(&segments(&["x"]), false, 0, 9, "/x".to_string());
    let again = search_all(&root, "");
    assert_eq!(paths(&again), vec![".", "/x/y", "/x/y"]);
    assert_eq!(again[1].modified, 8);
}

#[test]
fn children_are_visited_in_the_order_of_their_creation() {
    let mut root = TrieNode::new(false, 0, 0, ".".to_string());
    root.insert(&segments(&["z"]), false, 0, 1, "/z".to_string());
    root.insert(&segments(&["m"]), false, 0, 1, "/m".to_string());
    root.insert(&segments(&["z", "k"]), true, 1, 1, "/z/k".to_string());
    root.insert(&segments(&["a"]), true, 1, 1, "/a".to_string());
    assert_eq!(paths(&search_all(&root, "")), vec![".", "/z", "/z/k", "/m", "/a"]);
}

#[test]
fn search_pattern_appends_to_what_is_there() {
    let mut root = TrieNode::new(false, 0, 0, ".".to_string());
    root.insert(&segments(&["a"]), true, 1, 1, "/a".to_string());
    let mut results = vec![SearchResult {
        path: "kept".to_string(),
        is_file: false,
        size: 3,
        modified: 4,
    }];
    root.search_pattern("a", &mut results);
    assert_eq!(paths(&results), vec!["kept", "/a"]);
}

#[test]
fn search_pattern_is_a_case_sensitive_substring_test() {
    let mut root = TrieNode::new(false, 0, 0, ".".to_string());
    root.insert(&segments(&["Readme.MD"]), true, 1, 1, "/Readme.MD".to_string());
    root.insert(&segments(&["notes"]), false, 0, 1, "/notes".to_string());
    assert_eq!(paths(&search_all(&root, "Read")), vec!["/Readme.MD"]);
    assert!(search_all(&root, "read").is_empty());
    assert_eq!(paths(&search_all(&root, "me.M")), vec!["/Readme.MD"]);
    assert_eq!(paths(&search_all(&root, "/")), vec!["/Readme.MD", "/notes"]);
    assert!(search_all(&root, "/Readme.MDx").is_empty());
}

#[test]
fn search_finds_exactly_the_nodes_whose_path_contains_the_pattern() {
    let explorer = sample();
    let everything = explorer.search("");
    for pattern in ["", "a", "b", "/a/", "txt", ".", "c", "zzz", "/a/b.txt"] {
        let hits = explorer.search(pattern);
        let expected: Vec<&str> = everything
            .iter()
            .filter(|node| node.path.contains(pattern))
            .map(|node| node.path.as_str())
            .collect();
        assert_eq!(paths(&hits), expected);
    }
}

#[test]
fn new_explorer_holds_only_the_root() {
    let explorer = FileExplorer::new();
    let results = explorer.search("");
    assert_eq!(results.len(), 1);
    assert_eq!(results[0].path, ".");
    assert!(!results[0].is_file);
    assert_eq!(results[0].size, 0);
}

#[test]
fn explorer_with_root_time_carries_that_time() {
    let explorer = FileExplorer::with_root_time(12345);
    let results = explorer.search("");
    assert_eq!(results.len(), 1);
    assert_eq!(results[0].path, ".");
    assert_eq!(results[0].modified, 12345);
}

#[test]
fn query_for_a_term_returns_the_matching_file_only() {
    let results = sample().search("b");
    assert_eq!(paths(&results), vec!["/a/b.txt"]);
    assert!(results[0].is_file);
    assert_eq!(results[0].size, 100);
    assert_eq!(results[0].modified, 1_650_000_000);
}

#[test]
fn empty_query_returns_every_node_and_the_root() {
    assert_eq!(paths(&sample().search("")), vec![".", "/a", "/a/b.txt", "/a/c"]);
}

#[test]
fn query_with_file_and_extension_directives() {
    assert_eq!(paths(&sample().search("b @file @ext:txt")), vec!["/a/b.txt"]);
    assert_eq!(paths(&sample().search("b @file @ext:TXT")), vec!["/a/b.txt"]);
    assert!(sample().search("b @file @ext:rs").is_empty());
    assert!(sample().search("b @dir").is_empty());
}

#[test]
fn query_for_directories_returns_them_and_the_root() {
    assert_eq!(paths(&sample().search("@dir")), vec![".", "/a", "/a/c"]);
    assert_eq!(paths(&sample().search("@folder")), vec![".", "/a", "/a/c"]);
}

#[test]
fn size_constraint_excludes_small_files_and_all_directories() {
    assert!(sample().search("@size>1KB").is_empty());
    assert_eq!(paths(&sample().search("@size<1KB")), vec!["/a/b.txt"]);
}

#[test]
fn too_short_size_directive_is_ignored() {
    assert_eq!(paths(&sample().search("@size>")), vec![".", "/a", "/a/b.txt", "/a/c"]);
    assert_eq!(paths(&sample().search("b @size>")), vec!["/a/b.txt"]);
}

#[test]
fn query_without_a_match_returns_nothing() {
    assert!(sample().search("nowhere").is_empty());
}

#[test]
fn build_from_path_inserts_in_the_given_order() {
    let mut explorer = FileExplorer::with_root_time(0);
    explorer.build_from_path(&[
        entry(&["b"], true, 1, 1, "/b"),
        entry(&["a"], true, 2, 2, "/a"),
        entry(&["b"], false, 3, 3, "/other"),
    ]);
    let results = explorer.search("");
    assert_eq!(paths(&results), vec![".", "/b", "/a"]);
    assert_eq!(results[1].size, 1);
    explorer.build_from_path(&[entry(&["c"], true, 4, 4, "/c")]);
    assert_eq!(paths(&explorer.search("")), vec![".", "/b", "/a", "/c"]);
}
