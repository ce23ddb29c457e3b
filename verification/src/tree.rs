//! The directory-tree snapshot: files and directories, nested, each listing
//! ordered by name.

use crate::order::name_le;
use crate::sort::sort_by_name;
use crate::sort::sort_entries;
use std::path::PathBuf;
use vstd::prelude::*;

verus! {

/// `std::path::PathBuf`. The library stores and hands on paths and never looks
/// inside one, so the type is declared without any of its structure.
#[verifier::external_type_specification]
#[verifier::external_body]
pub struct ExPathBuf(std::path::PathBuf);

/// `PathBuf::clone`: the copy is the same path as the one it was made from.
pub assume_specification[ <PathBuf as Clone>::clone ](p: &PathBuf) -> (r: PathBuf)
    ensures
        r == *p,
;

/// One entry of a directory: a file, or a directory with its own entries.
#[derive(Debug, PartialEq, Eq)]
pub enum FileEntry {
    File { name: String, path: PathBuf },
    Directory { name: String, path: PathBuf, files: Vec<FileEntry> },
}

/// What a `FileEntry` stands for: names as character sequences, the entries of
/// a directory as a sequence of such values.
pub enum EntryView {
    File { name: Seq<char>, path: PathBuf },
    Directory { name: Seq<char>, path: PathBuf, children: Seq<EntryView> },
}

impl View for FileEntry {
    type V = EntryView;

    open spec fn view(&self) -> EntryView
        decreases self,
    {
        match self {
            FileEntry::File { name, path } => EntryView::File { name: name@, path: *path },
            FileEntry::Directory { name, path, files } => EntryView::Directory {
                name: name@,
                path: *path,
                children: Seq::new(
                    files@.len(),
                    |i: int|
                        if 0 <= i < files@.len() {
                            files@[i].view()
                        } else {
                            EntryView::File { name: name@, path: *path }
                        },
                ),
            },
        }
    }
}

/// The models of a sequence of entries, position by position.
pub open spec fn entry_views(s: Seq<FileEntry>) -> Seq<EntryView> {
    Seq::new(s.len(), |i: int| s[i]@)
}

impl EntryView {
    /// The entry's own name (its last path component).
    pub open spec fn name(self) -> Seq<char> {
        match self {
            EntryView::File { name, .. } => name,
            EntryView::Directory { name, .. } => name,
        }
    }

    /// The entry's path.
    pub open spec fn path(self) -> PathBuf {
        match self {
            EntryView::File { path, .. } => path,
            EntryView::Directory { path, .. } => path,
        }
    }

    /// The number of entries in this subtree, the entry itself included.
    pub open spec fn count(self) -> nat
        decreases self,
    {
        match self {
            EntryView::File { .. } => 1,
            EntryView::Directory { children, .. } => 1 + count_entries(children),
        }
    }

    /// Every listing inside this entry, at any depth, is ordered by name.
    pub open spec fn sorted_within(self) -> bool
        decreases self,
    {
        match self {
            EntryView::File { .. } => true,
            EntryView::Directory { children, .. } => {
                &&& sorted_by_name(children)
                &&& forall|i: int| 0 <= i < children.len() ==> (#[trigger] children[i]).sorted_within()
            },
        }
    }
}

/// The number of entries in a listing, at all depths.
pub open spec fn count_entries(s: Seq<EntryView>) -> nat
    decreases s,
{
    if s.len() == 0 {
        0
    } else {
        count_entries(s.drop_last()) + s.last().count()
    }
}

/// One listing is in ascending order of name.
pub open spec fn sorted_by_name(s: Seq<EntryView>) -> bool {
    forall|i: int, j: int| 0 <= i < j < s.len() ==> name_le(#[trigger] s[i].name(), #[trigger] s[j].name())
}

/// A listing is ordered by name, and so is every listing nested in it.
pub open spec fn sorted_at_every_level(s: Seq<EntryView>) -> bool {
    &&& sorted_by_name(s)
    &&& forall|i: int| 0 <= i < s.len() ==> (#[trigger] s[i]).sorted_within()
}

impl FileEntry {
    /// A file entry.
    pub fn file(name: String, path: PathBuf) -> (r: FileEntry)
        ensures
            r@ == (EntryView::File { name: name@, path }),
    {
        FileEntry::File { name, path }
    }

    /// A directory entry that holds `entries`, put in order of name.
    pub fn directory(name: String, path: PathBuf, entries: Vec<FileEntry>) -> (r: FileEntry)
        ensures
            r@ == (EntryView::Directory {
                name: name@,
                path,
                children: sort_by_name(entry_views(entries@)),
            }),
    {
        let files = sort_entries(entries);
        proof {
            lemma_directory_children(name, path, files);
        }
        FileEntry::Directory { name, path, files }
    }

    /// The entry's own name.
    pub fn name(&self) -> (r: &str)
        ensures
            r@ == self@.name(),
    {
        match self {
            FileEntry::File { name, .. } => name.as_str(),
            FileEntry::Directory { name, .. } => name.as_str(),
        }
    }

    /// Whether the entry is a directory.
    pub fn is_dir(&self) -> (r: bool)
        ensures
            r == (self@ is Directory),
    {
        match self {
            FileEntry::File { .. } => false,
            FileEntry::Directory { .. } => true,
        }
    }
}

impl Clone for FileEntry {
    /// A copy of the entry and of everything below it.
    fn clone(&self) -> (r: FileEntry)
        ensures
            r@ == self@,
        decreases self,
    {
        match self {
            FileEntry::File { name, path } => FileEntry::File {
                name: name.clone(),
                path: path.clone(),
            },
            FileEntry::Directory { name, path, files } => {
                let mut copies: Vec<FileEntry> = Vec::new();
                let mut i: usize = 0;
                while i < files.len()
                    invariant
                        i <= files.len(),
                        copies.len() == i,
                        forall|k: int| 0 <= k < i ==> copies[k]@ == files[k]@,
                        self matches FileEntry::Directory { files: own, .. } && own == files,
                    decreases files.len() - i,
                {
                    copies.push(files[i].clone());
                    i += 1;
                }
                let r = FileEntry::Directory { name: name.clone(), path: path.clone(), files: copies };
                proof {
                    assert(r@->children =~= self@->children);
                }
                r
            },
        }
    }
}

/// A copy of a listing.
pub fn clone_entries(entries: &Vec<FileEntry>) -> (copies: Vec<FileEntry>)
    ensures
        entry_views(copies@) == entry_views(entries@),
{
    let mut copies: Vec<FileEntry> = Vec::new();
    let mut i: usize = 0;
    while i < entries.len()
        invariant
            i <= entries.len(),
            copies.len() == i,
            forall|k: int| 0 <= k < i ==> copies[k]@ == entries[k]@,
        decreases entries.len() - i,
    {
        copies.push(entries[i].clone());
        i += 1;
    }
    assert(entry_views(copies@) =~= entry_views(entries@));
    copies
}

/// The entries of a directory are, in the model, the models of its entries.
pub proof fn lemma_directory_children(name: String, path: PathBuf, files: Vec<FileEntry>)
    ensures
        (FileEntry::Directory { name, path, files })@ == (EntryView::Directory {
            name: name@,
            path,
            children: entry_views(files@),
        }),
{
    let d = FileEntry::Directory { name, path, files };
    assert(d@->children =~= entry_views(files@));
}

/// A snapshot of a directory tree: the listing of its root.
#[derive(Debug, PartialEq, Eq)]
pub struct FileTree {
    pub files: Vec<FileEntry>,
}

impl View for FileTree {
    type V = Seq<EntryView>;

    open spec fn view(&self) -> Seq<EntryView> {
        entry_views(self.files@)
    }
}

impl FileTree {
    /// The snapshot whose root holds `entries`, put in order of name.
    pub fn from_entries(entries: Vec<FileEntry>) -> (r: FileTree)
        ensures
            r@ == sort_by_name(entry_views(entries@)),
    {
        FileTree { files: sort_entries(entries) }
    }
}

impl Clone for FileTree {
    /// A copy of the whole snapshot.
    fn clone(&self) -> (r: FileTree)
        ensures
            r@ == self@,
    {
        FileTree { files: clone_entries(&self.files) }
    }
}

impl Default for FileTree {
    /// The empty snapshot.
    fn default() -> (r: FileTree)
        ensures
            r@ == Seq::<EntryView>::empty(),
    {
        let r = FileTree { files: Vec::new() };
        assert(r@ =~= Seq::<EntryView>::empty());
        r
    }
}

} // verus!
