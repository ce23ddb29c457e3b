//! The directory scanner: a depth-first walk of a directory tree that asks for
//! one directory listing at a time and builds the snapshot from the answers.
//!
//! The scanner does no reading of its own. It names the directory whose
//! listing it needs next; the caller reads that directory and feeds the
//! listing, or the failure, back.

use crate::failure::ScanFailure;
use crate::sort::lemma_sort_orders;
use crate::sort::sort_by_name;
use crate::tree::entry_views;
use crate::tree::sorted_at_every_level;
use crate::tree::EntryView;
use crate::tree::FileEntry;
use crate::tree::FileTree;
use std::path::PathBuf;
use vstd::prelude::*;

verus! {

/// What a directory listing shows of one entry.
#[derive(Debug, PartialEq, Eq)]
pub struct DirItem {
    pub name: String,
    pub path: PathBuf,
    pub is_dir: bool,
}

/// The model of a `DirItem`.
pub struct ItemView {
    pub name: Seq<char>,
    pub path: PathBuf,
    pub is_dir: bool,
}

impl View for DirItem {
    type V = ItemView;

    open spec fn view(&self) -> ItemView {
        ItemView { name: self.name@, path: self.path, is_dir: self.is_dir }
    }
}

/// The models of a listing, position by position.
pub open spec fn item_views(s: Seq<DirItem>) -> Seq<ItemView> {
    Seq::new(s.len(), |i: int| s[i]@)
}

/// The model of what the caller feeds back: a listing or a failure.
pub open spec fn listing_view(listing: Result<Vec<DirItem>, ScanFailure>) -> Result<
    Seq<ItemView>,
    ScanFailure,
> {
    match listing {
        Ok(items) => Ok(item_views(items@)),
        Err(failure) => Err(failure),
    }
}

/// A directory that the walk has entered and not yet left.
pub struct FrameView {
    /// The directory's name.
    pub name: Seq<char>,
    /// The directory's path.
    pub path: PathBuf,
    /// The entries of its listing that the walk has not reached yet.
    pub rest: Seq<ItemView>,
    /// The entries built so far, in the order of the listing.
    pub built: Seq<EntryView>,
}

/// The model of a scanner.
pub struct ScannerView {
    /// The directories entered and not yet left, the root first. While the
    /// scan runs, the last one is the directory whose listing is awaited.
    pub stack: Seq<FrameView>,
    /// How the scan ended, once it has.
    pub outcome: Option<Result<Seq<EntryView>, ScanFailure>>,
}

/// The walk from a point at which no listing is awaited, up to the next
/// directory that needs one or to the end of the scan. Files are taken up as
/// they come; a directory whose listing is used up is put in order of name and
/// added to the directory above it; the listing of the root, put in order, is
/// the result.
pub open spec fn advance(stack: Seq<FrameView>) -> ScannerView
    decreases stack.len(), (if stack.len() > 0 { stack.last().rest.len() } else { 0 }),
{
    if stack.len() == 0 {
        ScannerView { stack, outcome: None }
    } else {
        let top = stack.last();
        if top.rest.len() == 0 {
            let listing = sort_by_name(top.built);
            if stack.len() == 1 {
                ScannerView { stack: Seq::empty(), outcome: Some(Ok(listing)) }
            } else {
                let parent = stack[stack.len() - 2];
                let dir = EntryView::Directory { name: top.name, path: top.path, children: listing };
                advance(
                    stack.take(stack.len() - 2).push(
                        FrameView { built: parent.built.push(dir), ..parent },
                    ),
                )
            }
        } else {
            let item = top.rest[0];
            let rest = top.rest.drop_first();
            if item.is_dir {
                ScannerView {
                    stack: stack.drop_last().push(FrameView { rest, ..top }).push(
                        FrameView {
                            name: item.name,
                            path: item.path,
                            rest: Seq::empty(),
                            built: Seq::empty(),
                        },
                    ),
                    outcome: None,
                }
            } else {
                let file = EntryView::File { name: item.name, path: item.path };
                advance(stack.drop_last().push(FrameView { rest, built: top.built.push(file), ..top }))
            }
        }
    }
}

impl ScannerView {
    /// A scan of the tree under `root` that has not asked for anything yet.
    pub open spec fn start(root: PathBuf) -> ScannerView {
        ScannerView {
            stack: seq![
                FrameView { name: Seq::empty(), path: root, rest: Seq::empty(), built: Seq::empty() },
            ],
            outcome: None,
        }
    }

    /// The directory whose listing the scan needs next, if it still runs.
    pub open spec fn request(self) -> Option<PathBuf> {
        if self.outcome is None && self.stack.len() > 0 {
            Some(self.stack.last().path)
        } else {
            None
        }
    }

    /// The scan after the answer to its request. A failure ends the scan with
    /// that failure and nothing else. A listing is walked up to the next
    /// request or to the end. A scan that asked for nothing is left as it is.
    pub open spec fn feed(self, listing: Result<Seq<ItemView>, ScanFailure>) -> ScannerView {
        if self.request() is None {
            self
        } else {
            match listing {
                Err(failure) => ScannerView { stack: Seq::empty(), outcome: Some(Err(failure)) },
                Ok(items) => advance(
                    self.stack.drop_last().push(FrameView { rest: items, ..self.stack.last() }),
                ),
            }
        }
    }

    /// Every entry built so far has all its listings in order of name, and so
    /// has the tree that the scan ended with.
    pub open spec fn ordered(self) -> bool {
        &&& frames_ordered(self.stack)
        &&& self.outcome matches Some(Ok(tree)) ==> sorted_at_every_level(tree)
    }

    /// The scan has ended or asks for a listing, and what it has built is in
    /// order. This holds at the start and after every step.
    pub open spec fn well_formed(self) -> bool {
        &&& self.ordered()
        &&& self.outcome is None ==> self.stack.len() > 0
    }
}

/// In every frame, every entry built so far has all its listings in order.
pub open spec fn frames_ordered(stack: Seq<FrameView>) -> bool {
    forall|f: int, i: int|
        0 <= f < stack.len() && 0 <= i < stack[f].built.len() ==> (#[trigger] stack[f].built[i]).sorted_within()
}

/// The walk keeps every listing that it builds in order of name, and it
/// stops only at a directory that needs its listing or at the end.
pub proof fn lemma_advance_ordered(stack: Seq<FrameView>)
    requires
        frames_ordered(stack),
    ensures
        advance(stack).ordered(),
        stack.len() > 0 ==> advance(stack).well_formed(),
    decreases stack.len(), (if stack.len() > 0 { stack.last().rest.len() } else { 0 }),
{
    if stack.len() > 0 {
        let top = stack.last();
        if top.rest.len() == 0 {
            let listing = sort_by_name(top.built);
            lemma_sort_orders(top.built);
            lemma_sorted_listing_ordered(top.built);
            if stack.len() > 1 {
                let parent = stack[stack.len() - 2];
                let dir = EntryView::Directory { name: top.name, path: top.path, children: listing };
                let next = stack.take(stack.len() - 2).push(
                    FrameView { built: parent.built.push(dir), ..parent },
                );
                assert(dir.sorted_within());
                assert(frames_ordered(next)) by {
                    assert forall|f: int, i: int|
                        0 <= f < next.len() && 0 <= i < next[f].built.len() implies (
                    #[trigger] next[f].built[i]).sorted_within() by {
                        if f < next.len() - 1 {
                            assert(next[f].built[i] == stack[f].built[i]);
                        } else if i < parent.built.len() {
                            assert(next[f].built[i] == stack[stack.len() - 2].built[i]);
                        }
                    }
                }
                lemma_advance_ordered(next);
            }
        } else {
            let item = top.rest[0];
            let rest = top.rest.drop_first();
            if item.is_dir {
                let fresh = FrameView {
                    name: item.name,
                    path: item.path,
                    rest: Seq::empty(),
                    built: Seq::empty(),
                };
                let next = stack.drop_last().push(FrameView { rest, ..top }).push(fresh);
                assert forall|f: int, i: int|
                    0 <= f < next.len() && 0 <= i < next[f].built.len() implies (
                #[trigger] next[f].built[i]).sorted_within() by {
                    assert(next[f].built[i] == stack[f].built[i]);
                }
            } else {
                let file = EntryView::File { name: item.name, path: item.path };
                let next = stack.drop_last().push(
                    FrameView { rest, built: top.built.push(file), ..top },
                );
                assert(frames_ordered(next)) by {
                    assert forall|f: int, i: int|
                        0 <= f < next.len() && 0 <= i < next[f].built.len() implies (
                    #[trigger] next[f].built[i]).sorted_within() by {
                        if f < next.len() - 1 || i < top.built.len() {
                            assert(next[f].built[i] == stack[f].built[i]);
                        }
                    }
                }
                lemma_advance_ordered(next);
            }
        }
    }
}

/// Putting a listing in order keeps what is in order inside its entries.
pub proof fn lemma_sorted_listing_ordered(s: Seq<EntryView>)
    requires
        forall|i: int| 0 <= i < s.len() ==> (#[trigger] s[i]).sorted_within(),
    ensures
        sorted_at_every_level(sort_by_name(s)),
{
    let r = sort_by_name(s);
    lemma_sort_orders(s);
    s.to_multiset_ensures();
    r.to_multiset_ensures();
    assert forall|i: int| 0 <= i < r.len() implies (#[trigger] r[i]).sorted_within() by {
        assert(r.contains(r[i]));
        assert(s.to_multiset().count(r[i]) > 0);
        assert(s.contains(r[i]));
        let k = choose|k: int| 0 <= k < s.len() && s[k] == r[i];
        assert(s[k].sorted_within());
    }
}

/// A scan is well formed at its start.
pub proof fn lemma_start_well_formed(root: PathBuf)
    ensures
        ScannerView::start(root).well_formed(),
{
}

/// Every step of a scan keeps the listings that it builds in order of name,
/// and leaves the scan ended or asking for a listing.
pub proof fn lemma_feed_well_formed(scan: ScannerView, listing: Result<Seq<ItemView>, ScanFailure>)
    requires
        scan.well_formed(),
    ensures
        scan.feed(listing).well_formed(),
{
    if scan.request() is Some {
        if let Ok(items) = listing {
            let stack = scan.stack.drop_last().push(FrameView { rest: items, ..scan.stack.last() });
            assert forall|f: int, i: int|
                0 <= f < stack.len() && 0 <= i < stack[f].built.len() implies (
            #[trigger] stack[f].built[i]).sorted_within() by {
                assert(stack[f].built[i] == scan.stack[f].built[i]);
            }
            lemma_advance_ordered(stack);
        }
    }
}

/// One directory of the walk as the scanner holds it. The entries still to be
/// walked are kept last one first, so that the next one is taken from the end.
struct Frame {
    name: String,
    path: PathBuf,
    rest: Vec<DirItem>,
    built: Vec<FileEntry>,
}

impl View for Frame {
    type V = FrameView;

    closed spec fn view(&self) -> FrameView {
        FrameView {
            name: self.name@,
            path: self.path,
            rest: item_views(self.rest@).reverse(),
            built: entry_views(self.built@),
        }
    }
}

spec fn frame_views(s: Seq<Frame>) -> Seq<FrameView> {
    Seq::new(s.len(), |i: int| s[i]@)
}

spec fn outcome_view(outcome: Option<Result<FileTree, ScanFailure>>) -> Option<
    Result<Seq<EntryView>, ScanFailure>,
> {
    match outcome {
        None => None,
        Some(Ok(tree)) => Some(Ok(tree@)),
        Some(Err(failure)) => Some(Err(failure)),
    }
}

/// The items in the opposite order.
fn reversed(items: Vec<DirItem>) -> (r: Vec<DirItem>)
    ensures
        r@ == items@.reverse(),
{
    let ghost given = items@;
    let mut items = items;
    let mut r: Vec<DirItem> = Vec::new();
    while items.len() > 0
        invariant
            items@ == given.take(items.len() as int),
            items.len() <= given.len(),
            r.len() + items.len() == given.len(),
            forall|k: int| 0 <= k < r.len() ==> r[k] == given[given.len() - 1 - k],
        decreases items.len(),
    {
        let item = items.pop().unwrap();
        r.push(item);
    }
    assert(r@ =~= given.reverse());
    r
}

/// A scan of one directory tree, between two listings.
pub struct Scanner {
    stack: Vec<Frame>,
    outcome: Option<Result<FileTree, ScanFailure>>,
}

impl View for Scanner {
    type V = ScannerView;

    closed spec fn view(&self) -> ScannerView {
        ScannerView { stack: frame_views(self.stack@), outcome: outcome_view(self.outcome) }
    }
}

impl Scanner {
    #[verifier::type_invariant]
    spec fn well_formed(self) -> bool {
        self@.well_formed()
    }

    /// A scan of the tree under `root`. It asks for the listing of `root`.
    pub fn new(root: PathBuf) -> (r: Scanner)
        ensures
            r@ == ScannerView::start(root),
    {
        let mut stack: Vec<Frame> = Vec::new();
        stack.push(Frame { name: String::new(), path: root, rest: Vec::new(), built: Vec::new() });
        let r = Scanner { stack, outcome: None };
        proof {
            assert(r.stack[0]@.rest =~= Seq::<ItemView>::empty());
            assert(r.stack[0]@.built =~= Seq::<EntryView>::empty());
            assert(r@.stack =~= ScannerView::start(root).stack);
        }
        r
    }

    /// The directory whose listing the scan needs next; `None` once the scan
    /// has ended, and only then.
    pub fn request(&self) -> (r: Option<&PathBuf>)
        ensures
            match r {
                Some(path) => self@.request() == Some(*path),
                None => self@.request() is None && self@.outcome is Some,
            },
    {
        proof {
            use_type_invariant(self);
        }
        if self.outcome.is_none() && self.stack.len() > 0 {
            Some(&self.stack[self.stack.len() - 1].path)
        } else {
            None
        }
    }

    /// Takes the answer to the request: the listing of the directory asked
    /// for, or the failure to read it, and walks on to the next request or to
    /// the end of the scan.
    pub fn feed(self, listing: Result<Vec<DirItem>, ScanFailure>) -> (r: Scanner)
        ensures
            r@ == self@.feed(listing_view(listing)),
    {
        proof {
            use_type_invariant(&self);
            lemma_feed_well_formed(self@, listing_view(listing));
        }
        let ghost goal = self@.feed(listing_view(listing));
        if self.outcome.is_some() || self.stack.len() == 0 {
            return self;
        }
        let Scanner { stack, outcome: _ } = self;
        let mut stack = stack;
        match listing {
            Err(failure) => {
                let r = Scanner { stack: Vec::new(), outcome: Some(Err(failure)) };
                assert(r@.stack =~= goal.stack);
                r
            },
            Ok(items) => {
                let mut top = stack.pop().unwrap();
                let ghost asked = top@;
                top.rest = reversed(items);
                proof {
                    assert(top@.rest =~= item_views(items@));
                    assert(frame_views(stack@) =~= self@.stack.drop_last());
                    assert(top@ == FrameView { rest: item_views(items@), ..asked });
                }
                loop
                    invariant
                        advance(frame_views(stack@).push(top@)) == goal,
                        goal == self@.feed(listing_view(listing)),
                        goal.well_formed(),
                    decreases stack.len(), top.rest.len(),
                {
                    let ghost before = frame_views(stack@).push(top@);
                    match top.rest.pop() {
                        None => {
                            let Frame { name, path, rest: _, built } = top;
                            match stack.pop() {
                                None => {
                                    proof {
                                        assert(before.last().rest =~= Seq::<ItemView>::empty());
                                        assert(frame_views(stack@) =~= goal.stack);
                                    }
                                    return Scanner {
                                        stack,
                                        outcome: Some(Ok(FileTree::from_entries(built))),
                                    };
                                },
                                Some(parent) => {
                                    let mut parent = parent;
                                    let ghost above = parent@;
                                    let dir = FileEntry::directory(name, path, built);
                                    parent.built.push(dir);
                                    top = parent;
                                    proof {
                                        assert(before.last().rest =~= Seq::<ItemView>::empty());
                                        assert(top@.built =~= above.built.push(dir@));
                                        assert(top@ == FrameView { built: above.built.push(dir@), ..above });
                                        assert(frame_views(stack@).push(top@) =~= before.take(
                                            before.len() - 2,
                                        ).push(top@));
                                    }
                                },
                            }
                        },
                        Some(item) => {
                            proof {
                                assert(before.last().rest[0] == item@);
                                assert(top@.rest =~= before.last().rest.drop_first());
                            }
                            if item.is_dir {
                                let fresh = Frame {
                                    name: item.name,
                                    path: item.path,
                                    rest: Vec::new(),
                                    built: Vec::new(),
                                };
                                proof {
                                    assert(fresh@.rest =~= Seq::<ItemView>::empty());
                                    assert(fresh@.built =~= Seq::<EntryView>::empty());
                                }
                                let ghost held = top@;
                                stack.push(top);
                                stack.push(fresh);
                                proof {
                                    assert(frame_views(stack@) =~= before.drop_last().push(held).push(
                                        fresh@,
                                    ));
                                }
                                return Scanner { stack, outcome: None };
                            } else {
                                let ghost held = top@;
                                top.built.push(FileEntry::file(item.name, item.path));
                                proof {
                                    let file = EntryView::File { name: item.name@, path: item.path };
                                    assert(top@.built =~= held.built.push(file));
                                    assert(frame_views(stack@).push(top@) =~= before.drop_last().push(
                                        FrameView { built: held.built.push(file), ..held },
                                    ));
                                }
                            }
                        },
                    }
                }
            },
        }
    }

    /// How the scan ended: the snapshot, with every listing in order of name,
    /// or the failure that stopped it; `None` while the scan still asks for a
    /// listing, and only then.
    pub fn finish(self) -> (r: Option<Result<FileTree, ScanFailure>>)
        ensures
            match r {
                None => self@.outcome is None && self@.request() is Some,
                Some(Ok(tree)) => self@.outcome == Some(Ok::<Seq<EntryView>, ScanFailure>(tree@))
                    && sorted_at_every_level(tree@),
                Some(Err(failure)) => self@.outcome == Some(
                    Err::<Seq<EntryView>, ScanFailure>(failure),
                ),
            },
    {
        proof {
            use_type_invariant(&self);
        }
        self.outcome
    }
}

} // verus!
