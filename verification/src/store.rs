//! The workspace store: the current tree snapshot and the current document,
//! two cells that are read by many and written by the event loop alone.

use crate::tree::EntryView;
use crate::tree::FileTree;
use vstd::prelude::*;

verus! {

/// The model of the store: what each cell holds.
pub struct StoreView {
    /// The root listing of the current tree snapshot.
    pub tree: Seq<EntryView>,
    /// The text of the open document, if one is open.
    pub document: Option<Seq<char>>,
}

/// The model of an optional text.
pub open spec fn text_view(text: Option<String>) -> Option<Seq<char>> {
    match text {
        Some(t) => Some(t@),
        None => None,
    }
}

/// The text to show for a document: its content, or nothing where there is no
/// document.
pub fn shown_text(document: &Option<String>) -> (r: &str)
    ensures
        r@ == match text_view(*document) {
            Some(text) => text,
            None => Seq::empty(),
        },
{
    match document {
        Some(text) => text.as_str(),
        None => {
            proof {
                reveal_strlit("");
            }
            ""
        },
    }
}

/// The two cells of shared state.
#[derive(Debug, PartialEq, Eq)]
pub struct WorkspaceStore {
    tree: FileTree,
    document: Option<String>,
}

impl View for WorkspaceStore {
    type V = StoreView;

    closed spec fn view(&self) -> StoreView {
        StoreView { tree: self.tree@, document: text_view(self.document) }
    }
}

impl WorkspaceStore {
    /// The store as it is before anything is published: an empty tree and no
    /// document.
    pub fn new() -> (r: WorkspaceStore)
        ensures
            r@ == (StoreView { tree: Seq::empty(), document: None }),
    {
        WorkspaceStore { tree: FileTree::default(), document: None }
    }

    /// The latest tree snapshot.
    pub fn tree(&self) -> (r: &FileTree)
        ensures
            r@ == self@.tree,
    {
        &self.tree
    }

    /// The text of the open document, if one is open.
    pub fn document(&self) -> (r: &Option<String>)
        ensures
            text_view(*r) == self@.document,
    {
        &self.document
    }

    /// The text to show for the document: its content, or nothing when no
    /// document is open.
    pub fn document_text(&self) -> (r: &str)
        ensures
            r@ == match self@.document {
                Some(text) => text,
                None => Seq::empty(),
            },
    {
        shown_text(&self.document)
    }

    /// Replaces the tree snapshot. The document is not touched.
    pub fn publish_tree(&mut self, tree: FileTree)
        ensures
            final(self)@ == (StoreView { tree: tree@, ..old(self)@ }),
    {
        self.tree = tree;
    }

    /// Replaces the open document. The tree is not touched.
    pub fn publish_document(&mut self, text: String)
        ensures
            final(self)@ == (StoreView { document: Some(text@), ..old(self)@ }),
    {
        self.document = Some(text);
    }
}

} // verus!
