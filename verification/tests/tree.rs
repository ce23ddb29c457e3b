use new_ide::order::names_in_order;
use new_ide::sort::sort_entries;
use new_ide::tree::{clone_entries, FileEntry, FileTree};
use std::path::PathBuf;

fn file(name: &str, path: &str) -> FileEntry {
    FileEntry::File { name: name.to_string(), path: PathBuf::from(path) }
}

fn dir(name: &str, path: &str, files: Vec<FileEntry>) -> FileEntry {
    FileEntry::Directory { name: name.to_string(), path: PathBuf::from(path), files }
}

fn names(entries: &Vec<FileEntry>) -> Vec<String> {
    let mut out = Vec::new();
    for e in entries {
        out.push(e.name().to_string());
    }
    out
}

#[test]
fn name_returns_the_name_of_a_file() {
    assert_eq!(file("notes.txt", "/w/notes.txt").name(), "notes.txt");
}

#[test]
fn name_returns_the_name_of_a_directory() {
    assert_eq!(dir("src", "/w/src", vec![]).name(), "src");
}

#[test]
fn is_dir_tells_files_from_directories() {
    assert!(!file("a", "/a").is_dir());
    assert!(dir("d", "/d", vec![]).is_dir());
    assert!(dir("d", "/d", vec![file("a", "/d/a")]).is_dir());
}

#[test]
fn names_compare_by_bytes() {
    assert!(names_in_order("a", "b"));
    assert!(!names_in_order("b", "a"));
    assert!(names_in_order("a", "a"));
    assert!(names_in_order("", "a"));
    assert!(names_in_order("", ""));
    assert!(!names_in_order("a", ""));
    assert!(names_in_order("a", "ab"));
    assert!(!names_in_order("ab", "a"));
    assert!(names_in_order("ab", "b"));
    // Upper case letters come before lower case ones.
    assert!(names_in_order("Zebra", "apple"));
    assert!(!names_in_order("apple", "Zebra"));
    // Digits come before letters.
    assert!(names_in_order("10", "9"));
    assert!(names_in_order("9", "a"));
}

#[test]
fn names_beyond_ascii_compare_by_their_encoding() {
    assert!(names_in_order("z", "\u{e9}"));
    assert!(!names_in_order("\u{e9}", "z"));
    assert!(names_in_order("\u{e9}", "\u{4e2d}"));
    assert!(names_in_order("\u{4e2d}", "\u{1f600}"));
    assert!(names_in_order("e\u{301}", "\u{e9}"));
}

#[test]
fn names_in_order_agrees_with_the_order_of_strings() {
    let samples = ["", "a", "A", "ab", "abc", "b", "B", "_", "~", "0", "a b", "a.b", "\u{e9}", "\u{4e2d}\u{6587}", "z\u{e9}"];
    for x in samples.iter() {
        for y in samples.iter() {
            assert_eq!(names_in_order(x, y), x <= y);
        }
    }
}

#[test]
fn sort_entries_orders_by_name() {
    let sorted = sort_entries(vec![
        file("main.rs", "/w/main.rs"),
        dir("components", "/w/components", vec![]),
        file("Cargo.toml", "/w/Cargo.toml"),
        dir("event_loops", "/w/event_loops", vec![]),
        file("README.md", "/w/README.md"),
    ]);
    assert_eq!(names(&sorted), vec!["Cargo.toml", "README.md", "components", "event_loops", "main.rs"]);
}

#[test]
fn sort_entries_mixes_files_and_directories() {
    let sorted = sort_entries(vec![dir("b", "/b", vec![]), file("c", "/c"), file("a", "/a")]);
    assert_eq!(sorted, vec![file("a", "/a"), dir("b", "/b", vec![]), file("c", "/c")]);
}

#[test]
fn sort_entries_keeps_equal_names_in_the_given_order() {
    let sorted = sort_entries(vec![
        file("x", "/second/x"),
        file("a", "/a"),
        file("x", "/first/x"),
        dir("x", "/third/x", vec![]),
    ]);
    assert_eq!(
        sorted,
        vec![file("a", "/a"), file("x", "/second/x"), file("x", "/first/x"), dir("x", "/third/x", vec![])]
    );
}

#[test]
fn sort_entries_of_nothing_is_nothing() {
    assert_eq!(sort_entries(vec![]), vec![]);
}

#[test]
fn sort_entries_leaves_an_ordered_listing_alone() {
    let given = vec![file("a", "/a"), file("b", "/b"), file("c", "/c")];
    assert_eq!(sort_entries(clone_entries(&given)), given);
}

#[test]
fn sort_entries_reverses_a_descending_listing() {
    let sorted = sort_entries(vec![file("c", "/c"), file("b", "/b"), file("a", "/a")]);
    assert_eq!(names(&sorted), vec!["a", "b", "c"]);
}

#[test]
fn sort_entries_does_not_look_inside_directories() {
    let inner = vec![file("z", "/d/z"), file("y", "/d/y")];
    let sorted = sort_entries(vec![file("e", "/e"), dir("d", "/d", clone_entries(&inner))]);
    assert_eq!(sorted, vec![dir("d", "/d", inner), file("e", "/e")]);
}

#[test]
fn sort_entries_does_not_depend_on_the_given_order() {
    let one = sort_entries(vec![file("b", "/b"), file("a", "/a"), file("c", "/c")]);
    let two = sort_entries(vec![file("c", "/c"), file("b", "/b"), file("a", "/a")]);
    let three = sort_entries(vec![file("a", "/a"), file("c", "/c"), file("b", "/b")]);
    assert_eq!(one, two);
    assert_eq!(two, three);
}

#[test]
fn file_constructor_builds_a_file() {
    assert_eq!(FileEntry::file("a".to_string(), PathBuf::from("/a")), file("a", "/a"));
}

#[test]
fn directory_constructor_orders_its_entries() {
    let d = FileEntry::directory(
        "d".to_string(),
        PathBuf::from("/d"),
        vec![file("b", "/d/b"), file("a", "/d/a")],
    );
    assert_eq!(d, dir("d", "/d", vec![file("a", "/d/a"), file("b", "/d/b")]));
}

#[test]
fn default_tree_is_empty() {
    assert_eq!(FileTree::default().files.len(), 0);
}

#[test]
fn tree_from_entries_orders_the_root() {
    let tree = FileTree::from_entries(vec![file("b", "/b"), dir("a", "/a", vec![])]);
    assert_eq!(tree.files, vec![dir("a", "/a", vec![]), file("b", "/b")]);
}

#[test]
fn clone_copies_every_level() {
    let tree = FileTree {
        files: vec![
            dir("a", "/a", vec![dir("b", "/a/b", vec![file("c", "/a/b/c")]), file("d", "/a/d")]),
            file("e", "/e"),
        ],
    };
    let copy = tree.clone();
    assert_eq!(copy, tree);
    assert_eq!(tree.files[0].clone(), tree.files[0]);
    assert_ne!(tree.files[0].clone(), tree.files[1]);
}

#[test]
fn clone_entries_copies_a_listing() {
    let given = vec![file("b", "/b"), file("a", "/a")];
    assert_eq!(clone_entries(&given), given);
    assert_eq!(clone_entries(&vec![]), vec![]);
}

#[test]
fn sort_entries_orders_a_long_listing() {
    let n = 20000u32;
    let mut given = Vec::new();
    for i in 0..n {
        let name = format!("{:05}", (i * 7919) % n);
        given.push(FileEntry::File { name: name.clone(), path: PathBuf::from("/w").join(&name) });
    }
    let sorted = sort_entries(given);
    assert_eq!(sorted.len(), n as usize);
    for i in 0..n as usize {
        assert_eq!(sorted[i].name(), format!("{:05}", i));
    }
}

#[test]
fn sort_entries_keeps_the_given_order_among_many_equal_names() {
    let mut given = Vec::new();
    for i in 0..300u32 {
        given.push(file(if i % 3 == 0 { "b" } else if i % 3 == 1 { "a" } else { "c" }, &format!("/{}", i)));
    }
    let sorted = sort_entries(given);
    assert_eq!(sorted.len(), 300);
    for k in 0..100usize {
        assert_eq!(sorted[k], file("a", &format!("/{}", 3 * k + 1)));
        assert_eq!(sorted[100 + k], file("b", &format!("/{}", 3 * k)));
        assert_eq!(sorted[200 + k], file("c", &format!("/{}", 3 * k + 2)));
    }
}

#[test]
fn sort_entries_of_one_entry_is_that_entry() {
    assert_eq!(sort_entries(vec![file("a", "/a")]), vec![file("a", "/a")]);
}

#[test]
fn sort_entries_of_two_entries() {
    assert_eq!(sort_entries(vec![file("b", "/b"), file("a", "/a")]), vec![file("a", "/a"), file("b", "/b")]);
    assert_eq!(sort_entries(vec![file("a", "/a"), file("b", "/b")]), vec![file("a", "/a"), file("b", "/b")]);
    assert_eq!(sort_entries(vec![file("a", "/1"), file("a", "/2")]), vec![file("a", "/1"), file("a", "/2")]);
}
