use new_ide::failure::ScanFailure;
use new_ide::scanner::{DirItem, Scanner};
use new_ide::tree::{FileEntry, FileTree};
use std::collections::HashMap;
use std::path::PathBuf;

fn item(dir: &str, name: &str, is_dir: bool) -> DirItem {
    DirItem { name: name.to_string(), path: PathBuf::from(dir).join(name), is_dir }
}

fn file(name: &str, path: &str) -> FileEntry {
    FileEntry::File { name: name.to_string(), path: PathBuf::from(path) }
}

fn dir(name: &str, path: &str, files: Vec<FileEntry>) -> FileEntry {
    FileEntry::Directory { name: name.to_string(), path: PathBuf::from(path), files }
}

/// A disk held in memory: for each directory, the names of its entries in the
/// order in which it lists them, each with whether it is a directory.
struct Disk {
    listings: HashMap<PathBuf, Vec<(String, bool)>>,
    unreadable: HashMap<PathBuf, ScanFailure>,
}

impl Disk {
    fn new() -> Disk {
        Disk { listings: HashMap::new(), unreadable: HashMap::new() }
    }

    fn with(mut self, dir: &str, entries: &[(&str, bool)]) -> Disk {
        let mut listing = Vec::new();
        for (name, is_dir) in entries {
            listing.push((name.to_string(), *is_dir));
        }
        self.listings.insert(PathBuf::from(dir), listing);
        self
    }

    fn failing(mut self, dir: &str, failure: ScanFailure) -> Disk {
        self.unreadable.insert(PathBuf::from(dir), failure);
        self
    }

    fn list(&self, dir: &PathBuf) -> Result<Vec<DirItem>, ScanFailure> {
        if let Some(failure) = self.unreadable.get(dir) {
            return Err(*failure);
        }
        match self.listings.get(dir) {
            None => Err(ScanFailure::NotFound),
            Some(entries) => {
                let mut items = Vec::new();
                for (name, is_dir) in entries {
                    items.push(DirItem { name: name.clone(), path: dir.join(name), is_dir: *is_dir });
                }
                Ok(items)
            }
        }
    }

    /// Runs a scan to its end and returns the outcome with the directories
    /// that were asked for, in order.
    fn scan(&self, root: &str) -> (Result<FileTree, ScanFailure>, Vec<PathBuf>) {
        let mut asked = Vec::new();
        let mut scanner = Scanner::new(PathBuf::from(root));
        loop {
            let dir = match scanner.request() {
                Some(dir) => dir.clone(),
                None => break,
            };
            let listing = self.list(&dir);
            asked.push(dir);
            scanner = scanner.feed(listing);
        }
        (scanner.finish().unwrap(), asked)
    }
}

fn sample_disk() -> Disk {
    Disk::new()
        .with("/w", &[("src", true), ("Cargo.toml", false), ("assets", true), ("README.md", false)])
        .with("/w/src", &[("main.rs", false), ("event_loops", true), ("components", true)])
        .with("/w/src/event_loops", &[("core.rs", false)])
        .with("/w/src/components", &[("sidebar.rs", false), ("editor.rs", false)])
        .with("/w/assets", &[])
}

fn sample_tree() -> FileTree {
    FileTree {
        files: vec![
            file("Cargo.toml", "/w/Cargo.toml"),
            file("README.md", "/w/README.md"),
            dir("assets", "/w/assets", vec![]),
            dir(
                "src",
                "/w/src",
                vec![
                    dir(
                        "components",
                        "/w/src/components",
                        vec![
                            file("editor.rs", "/w/src/components/editor.rs"),
                            file("sidebar.rs", "/w/src/components/sidebar.rs"),
                        ],
                    ),
                    dir(
                        "event_loops",
                        "/w/src/event_loops",
                        vec![file("core.rs", "/w/src/event_loops/core.rs")],
                    ),
                    file("main.rs", "/w/src/main.rs"),
                ],
            ),
        ],
    }
}

fn sorted_at_every_level(entries: &Vec<FileEntry>) -> bool {
    for i in 1..entries.len() {
        if entries[i - 1].name() > entries[i].name() {
            return false;
        }
    }
    for e in entries {
        if let FileEntry::Directory { files, .. } = e {
            if !sorted_at_every_level(files) {
                return false;
            }
        }
    }
    true
}

fn count(entries: &Vec<FileEntry>) -> usize {
    let mut n = 0;
    for e in entries {
        n += 1;
        if let FileEntry::Directory { files, .. } = e {
            n += count(files);
        }
    }
    n
}

#[test]
fn new_scanner_asks_for_the_root() {
    let scanner = Scanner::new(PathBuf::from("/w"));
    assert_eq!(scanner.request(), Some(&PathBuf::from("/w")));
}

#[test]
fn unfinished_scan_has_no_outcome() {
    let scanner = Scanner::new(PathBuf::from("/w"));
    assert_eq!(scanner.finish(), None);
    let scanner = Scanner::new(PathBuf::from("/w")).feed(Ok(vec![item("/w", "d", true)]));
    assert_eq!(scanner.finish(), None);
}

#[test]
fn scanning_an_empty_directory_yields_an_empty_tree() {
    let scanner = Scanner::new(PathBuf::from("/empty")).feed(Ok(vec![]));
    assert_eq!(scanner.request(), None);
    assert_eq!(scanner.finish(), Some(Ok(FileTree { files: vec![] })));
}

#[test]
fn scanning_a_directory_of_files_takes_one_listing() {
    let scanner = Scanner::new(PathBuf::from("/w"))
        .feed(Ok(vec![item("/w", "b.txt", false), item("/w", "a.txt", false)]));
    assert_eq!(scanner.request(), None);
    assert_eq!(
        scanner.finish(),
        Some(Ok(FileTree { files: vec![file("a.txt", "/w/a.txt"), file("b.txt", "/w/b.txt")] }))
    );
}

#[test]
fn scan_builds_the_tree_with_every_listing_in_order() {
    let (outcome, _) = sample_disk().scan("/w");
    assert_eq!(outcome, Ok(sample_tree()));
}

#[test]
fn scan_result_is_sorted_at_every_level() {
    let (outcome, _) = sample_disk().scan("/w");
    let tree = outcome.unwrap();
    assert!(sorted_at_every_level(&tree.files));
}

#[test]
fn scan_walks_depth_first_in_the_order_of_the_listings() {
    let (_, asked) = sample_disk().scan("/w");
    assert_eq!(
        asked,
        vec![
            PathBuf::from("/w"),
            PathBuf::from("/w/src"),
            PathBuf::from("/w/src/event_loops"),
            PathBuf::from("/w/src/components"),
            PathBuf::from("/w/assets"),
        ]
    );
}

#[test]
fn scan_holds_every_entry_once() {
    let (outcome, asked) = sample_disk().scan("/w");
    // Four entries in the root, three in src, one and two below it.
    assert_eq!(count(&outcome.unwrap().files), 10);
    // One listing for the root and one for each of the four directories.
    assert_eq!(asked.len(), 5);
}

#[test]
fn scan_asks_for_a_directory_as_soon_as_it_meets_it() {
    let scanner = Scanner::new(PathBuf::from("/w")).feed(Ok(vec![
        item("/w", "a", false),
        item("/w", "d", true),
        item("/w", "e", true),
    ]));
    assert_eq!(scanner.request(), Some(&PathBuf::from("/w/d")));
    let scanner = scanner.feed(Ok(vec![item("/w/d", "x", false)]));
    assert_eq!(scanner.request(), Some(&PathBuf::from("/w/e")));
    let scanner = scanner.feed(Ok(vec![]));
    assert_eq!(scanner.request(), None);
    assert_eq!(
        scanner.finish(),
        Some(Ok(FileTree {
            files: vec![
                file("a", "/w/a"),
                dir("d", "/w/d", vec![file("x", "/w/d/x")]),
                dir("e", "/w/e", vec![]),
            ],
        }))
    );
}

#[test]
fn scan_of_a_missing_root_fails() {
    let (outcome, asked) = Disk::new().scan("/nowhere");
    assert_eq!(outcome, Err(ScanFailure::NotFound));
    assert_eq!(asked, vec![PathBuf::from("/nowhere")]);
}

#[test]
fn scan_of_an_unreadable_root_fails() {
    let (outcome, _) = sample_disk().failing("/w", ScanFailure::PermissionDenied).scan("/w");
    assert_eq!(outcome, Err(ScanFailure::PermissionDenied));
}

#[test]
fn failure_below_the_root_fails_the_whole_scan() {
    let disk = sample_disk().failing("/w/src/components", ScanFailure::Io);
    let (outcome, asked) = disk.scan("/w");
    assert_eq!(outcome, Err(ScanFailure::Io));
    // The walk stops at the directory that could not be read.
    assert_eq!(asked.last(), Some(&PathBuf::from("/w/src/components")));
    assert_eq!(asked.len(), 4);
}

#[test]
fn each_kind_of_failure_is_handed_on() {
    for failure in [ScanFailure::NotFound, ScanFailure::PermissionDenied, ScanFailure::Io] {
        let scanner = Scanner::new(PathBuf::from("/w")).feed(Err(failure));
        assert_eq!(scanner.request(), None);
        assert_eq!(scanner.finish(), Some(Err(failure)));
    }
}

#[test]
fn finished_scan_ignores_what_it_is_fed() {
    let scanner = Scanner::new(PathBuf::from("/w")).feed(Ok(vec![item("/w", "a", false)]));
    let scanner = scanner.feed(Ok(vec![item("/w", "b", false)]));
    let scanner = scanner.feed(Err(ScanFailure::Io));
    assert_eq!(scanner.request(), None);
    assert_eq!(scanner.finish(), Some(Ok(FileTree { files: vec![file("a", "/w/a")] })));
}

#[test]
fn failed_scan_stays_failed() {
    let scanner = Scanner::new(PathBuf::from("/w")).feed(Err(ScanFailure::NotFound));
    let scanner = scanner.feed(Ok(vec![item("/w", "a", false)]));
    assert_eq!(scanner.finish(), Some(Err(ScanFailure::NotFound)));
}

#[test]
fn scanning_twice_yields_equal_trees() {
    let disk = sample_disk();
    let (first, _) = disk.scan("/w");
    let (second, _) = disk.scan("/w");
    assert_eq!(first, second);
    assert_eq!(first, Ok(sample_tree()));
}

#[test]
fn scan_does_not_depend_on_the_order_of_the_listings() {
    let other = Disk::new()
        .with("/w", &[("README.md", false), ("assets", true), ("Cargo.toml", false), ("src", true)])
        .with("/w/src", &[("components", true), ("main.rs", false), ("event_loops", true)])
        .with("/w/src/event_loops", &[("core.rs", false)])
        .with("/w/src/components", &[("editor.rs", false), ("sidebar.rs", false)])
        .with("/w/assets", &[]);
    assert_eq!(other.scan("/w").0, sample_disk().scan("/w").0);
}

#[test]
fn entries_with_equal_names_keep_the_order_of_the_listing() {
    let scanner = Scanner::new(PathBuf::from("/w")).feed(Ok(vec![
        DirItem { name: "x".to_string(), path: PathBuf::from("/w/2/x"), is_dir: false },
        DirItem { name: "a".to_string(), path: PathBuf::from("/w/a"), is_dir: false },
        DirItem { name: "x".to_string(), path: PathBuf::from("/w/1/x"), is_dir: false },
    ]));
    assert_eq!(
        scanner.finish(),
        Some(Ok(FileTree {
            files: vec![file("a", "/w/a"), file("x", "/w/2/x"), file("x", "/w/1/x")],
        }))
    );
}

#[test]
fn scan_of_a_deep_tree_ends() {
    let levels = 300;
    let mut scanner = Scanner::new(PathBuf::from("/r"));
    let mut path = PathBuf::from("/r");
    let mut asked = 0;
    while let Some(dir) = scanner.request() {
        assert_eq!(dir, &path);
        asked += 1;
        let listing = if asked <= levels {
            let next = path.join("d");
            let listing = vec![
                DirItem { name: "f".to_string(), path: path.join("f"), is_dir: false },
                DirItem { name: "d".to_string(), path: next.clone(), is_dir: true },
            ];
            path = next;
            listing
        } else {
            vec![]
        };
        scanner = scanner.feed(Ok(listing));
    }
    assert_eq!(asked, levels + 1);
    let tree = scanner.finish().unwrap().unwrap();
    assert_eq!(count(&tree.files), 2 * levels);
    assert!(sorted_at_every_level(&tree.files));
    // The directory comes before the file at each level.
    let mut depth = 0;
    let mut listing = &tree.files;
    while let Some(FileEntry::Directory { files, .. }) = listing.first() {
        assert_eq!(listing.len(), 2);
        assert_eq!(listing[1].name(), "f");
        listing = files;
        depth += 1;
    }
    assert_eq!(depth, levels);
}

#[test]
fn scan_of_a_wide_directory_is_in_order() {
    let mut listing = Vec::new();
    for i in 0..500u32 {
        let name = format!("f{}", (i * 7919) % 500);
        listing.push(DirItem { name: name.clone(), path: PathBuf::from("/w").join(&name), is_dir: false });
    }
    let tree = Scanner::new(PathBuf::from("/w")).feed(Ok(listing)).finish().unwrap().unwrap();
    assert_eq!(tree.files.len(), 500);
    assert!(sorted_at_every_level(&tree.files));
    assert_eq!(tree.files[0].name(), "f0");
    assert_eq!(tree.files[1].name(), "f1");
    assert_eq!(tree.files[2].name(), "f10");
    assert_eq!(tree.files[499].name(), "f99");
}
