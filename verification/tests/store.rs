use new_ide::failure::{IoFault, ReadFailure, ScanFailure};
use new_ide::layout::directories_first;
use new_ide::store::WorkspaceStore;
use new_ide::tree::{FileEntry, FileTree};
use std::path::PathBuf;

fn file(name: &str) -> FileEntry {
    FileEntry::File { name: name.to_string(), path: PathBuf::from("/w").join(name) }
}

fn dir(name: &str, files: Vec<FileEntry>) -> FileEntry {
    FileEntry::Directory { name: name.to_string(), path: PathBuf::from("/w").join(name), files }
}

#[test]
fn new_store_is_empty() {
    let store = WorkspaceStore::new();
    assert_eq!(store.tree(), &FileTree { files: vec![] });
    assert_eq!(store.document(), &None);
    assert_eq!(store.document_text(), "");
}

#[test]
fn publishing_a_tree_replaces_the_tree_only() {
    let mut store = WorkspaceStore::new();
    store.publish_document("text".to_string());
    store.publish_tree(FileTree { files: vec![file("a")] });
    assert_eq!(store.tree(), &FileTree { files: vec![file("a")] });
    assert_eq!(store.document(), &Some("text".to_string()));
    store.publish_tree(FileTree { files: vec![file("b"), file("c")] });
    assert_eq!(store.tree(), &FileTree { files: vec![file("b"), file("c")] });
    assert_eq!(store.document(), &Some("text".to_string()));
}

#[test]
fn publishing_a_document_replaces_the_document_only() {
    let mut store = WorkspaceStore::new();
    store.publish_tree(FileTree { files: vec![file("a")] });
    store.publish_document("one".to_string());
    assert_eq!(store.document_text(), "one");
    store.publish_document("two".to_string());
    assert_eq!(store.document(), &Some("two".to_string()));
    assert_eq!(store.document_text(), "two");
    assert_eq!(store.tree(), &FileTree { files: vec![file("a")] });
}

#[test]
fn scan_failure_of_each_fault() {
    assert_eq!(ScanFailure::from_fault(IoFault::NotFound), ScanFailure::NotFound);
    assert_eq!(ScanFailure::from_fault(IoFault::PermissionDenied), ScanFailure::PermissionDenied);
    assert_eq!(ScanFailure::from_fault(IoFault::InvalidData), ScanFailure::Io);
    assert_eq!(ScanFailure::from_fault(IoFault::Other), ScanFailure::Io);
}

#[test]
fn read_failure_of_each_fault() {
    assert_eq!(ReadFailure::from_fault(IoFault::NotFound), ReadFailure::NotFound);
    assert_eq!(ReadFailure::from_fault(IoFault::PermissionDenied), ReadFailure::PermissionDenied);
    assert_eq!(ReadFailure::from_fault(IoFault::InvalidData), ReadFailure::InvalidEncoding);
    assert_eq!(ReadFailure::from_fault(IoFault::Other), ReadFailure::InvalidEncoding);
}

#[test]
fn directories_are_shown_before_files() {
    let listing = vec![file("Cargo.toml"), file("README.md"), dir("assets", vec![]), file("build.rs"), dir("src", vec![file("x")])];
    assert_eq!(directories_first(&listing), vec![2, 4, 0, 1, 3]);
}

#[test]
fn shown_order_of_an_empty_listing_is_empty() {
    assert_eq!(directories_first(&vec![]), Vec::<usize>::new());
}

#[test]
fn shown_order_of_files_alone_is_the_listing_order() {
    assert_eq!(directories_first(&vec![file("a"), file("b"), file("c")]), vec![0, 1, 2]);
}

#[test]
fn shown_order_of_directories_alone_is_the_listing_order() {
    assert_eq!(directories_first(&vec![dir("a", vec![]), dir("b", vec![])]), vec![0, 1]);
}

#[test]
fn shown_order_has_every_position_once() {
    let listing = vec![dir("a", vec![]), file("b"), dir("c", vec![]), file("d"), file("e"), dir("f", vec![])];
    let mut order = directories_first(&listing);
    assert_eq!(order, vec![0, 2, 5, 1, 3, 4]);
    order.sort();
    assert_eq!(order, vec![0, 1, 2, 3, 4, 5]);
}

#[test]
fn shown_text_of_no_document_is_empty() {
    assert_eq!(new_ide::store::shown_text(&None), "");
}

#[test]
fn shown_text_of_a_document_is_its_content() {
    assert_eq!(new_ide::store::shown_text(&Some("hello world".to_string())), "hello world");
    assert_eq!(new_ide::store::shown_text(&Some(String::new())), "");
}
