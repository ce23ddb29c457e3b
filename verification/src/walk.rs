//! What a scan makes of a whole directory tree.
//!
//! A tree on disk is modelled as a listing of entries in the order in which
//! the file system enumerates them, each directory with the listing of its
//! own entries. The laws below relate such a tree to the outcome of a scan
//! whose requests are answered from it.

use crate::failure::ScanFailure;
use crate::scanner::advance;
use crate::scanner::lemma_sorted_listing_ordered;
use crate::scanner::FrameView;
use crate::scanner::ItemView;
use crate::scanner::ScannerView;
use crate::sort::distinct_names;
use crate::sort::insert_by_name;
use crate::sort::lemma_sort_ignores_given_order;
use crate::sort::sort_by_name;
use crate::tree::count_entries;
use crate::tree::sorted_at_every_level;
use crate::tree::EntryView;
use std::path::PathBuf;
use vstd::prelude::*;

verus! {

/// What the listing of its directory shows of an entry.
pub open spec fn item_of(e: EntryView) -> ItemView {
    ItemView { name: e.name(), path: e.path(), is_dir: e is Directory }
}

/// The listing of a directory that holds the entries `s`, in that order.
pub open spec fn items_of(s: Seq<EntryView>) -> Seq<ItemView> {
    Seq::new(s.len(), |i: int| item_of(s[i]))
}

/// The entry as a snapshot holds it: a directory has its entries in order of
/// name, at every depth.
pub open spec fn snapshot_entry(e: EntryView) -> EntryView
    decreases e, 0int,
{
    match e {
        EntryView::File { .. } => e,
        EntryView::Directory { name, path, children } => EntryView::Directory {
            name,
            path,
            children: snapshot(children),
        },
    }
}

/// The entries of a listing, each as a snapshot holds it, in the order of the
/// listing.
pub open spec fn snapshot_each(s: Seq<EntryView>) -> Seq<EntryView>
    decreases s, 0int,
{
    Seq::new(s.len(), |i: int| if 0 <= i < s.len() { snapshot_entry(s[i]) } else { s[i] })
}

/// The snapshot of the tree whose root lists the entries `s`: every listing,
/// the root's included, in order of name.
pub open spec fn snapshot(s: Seq<EntryView>) -> Seq<EntryView>
    decreases s, 1int,
{
    sort_by_name(snapshot_each(s))
}

/// The listings that a depth-first walk needs for the directories among the
/// entries `s` and below them, in the order in which it asks for them.
pub open spec fn listings_below(s: Seq<EntryView>) -> Seq<Seq<ItemView>>
    decreases s,
{
    if s.len() == 0 {
        Seq::empty()
    } else {
        listings_of(s[0]) + listings_below(s.drop_first())
    }
}

/// The listings that a depth-first walk needs for the entry `e`: none for a
/// file; for a directory its own listing, then those below it.
pub open spec fn listings_of(e: EntryView) -> Seq<Seq<ItemView>>
    decreases e,
{
    match e {
        EntryView::File { .. } => Seq::empty(),
        EntryView::Directory { children, .. } => seq![items_of(children)] + listings_below(children),
    }
}

/// All the listings that a scan of the tree with root listing `disk` asks
/// for, in order: that of the root first.
pub open spec fn listings_of_tree(disk: Seq<EntryView>) -> Seq<Seq<ItemView>> {
    seq![items_of(disk)] + listings_below(disk)
}

/// The scan after it has been fed the given listings, one after the other.
pub open spec fn feed_all(scan: ScannerView, listings: Seq<Seq<ItemView>>) -> ScannerView
    decreases listings.len(),
{
    if listings.len() == 0 {
        scan
    } else {
        feed_all(scan.feed(Ok(listings[0])), listings.drop_first())
    }
}

/// The paths of the directories among the entries `s` and below them, in the
/// order in which a depth-first walk enters them.
pub open spec fn directories_below(s: Seq<EntryView>) -> Seq<PathBuf>
    decreases s,
{
    if s.len() == 0 {
        Seq::empty()
    } else {
        directories_of(s[0]) + directories_below(s.drop_first())
    }
}

/// The paths of the directories that a depth-first walk enters for the entry
/// `e`: none for a file; for a directory its own, then those below it.
pub open spec fn directories_of(e: EntryView) -> Seq<PathBuf>
    decreases e,
{
    match e {
        EntryView::File { .. } => Seq::empty(),
        EntryView::Directory { path, children, .. } => seq![path] + directories_below(children),
    }
}

/// The directories that the scan asks for while it is fed the given listings:
/// its request before each of them, `None` where it asked for nothing.
pub open spec fn requests_during(scan: ScannerView, listings: Seq<Seq<ItemView>>) -> Seq<
    Option<PathBuf>,
>
    decreases listings.len(),
{
    if listings.len() == 0 {
        Seq::empty()
    } else {
        seq![scan.request()] + requests_during(scan.feed(Ok(listings[0])), listings.drop_first())
    }
}

/// Requests for the given directories, in order.
pub open spec fn requests_for(paths: Seq<PathBuf>) -> Seq<Option<PathBuf>> {
    Seq::new(paths.len(), |i: int| Some(paths[i]))
}

/// A scan that has ended with the tree `tree`.
pub open spec fn ended_with(tree: Seq<EntryView>) -> ScannerView {
    ScannerView { stack: Seq::empty(), outcome: Some(Ok(tree)) }
}

/// The walk from a point at which no listing is awaited, fed the given
/// listings as it asks for them.
#[verifier::opaque]
spec fn walk_on(stack: Seq<FrameView>, listings: Seq<Seq<ItemView>>) -> ScannerView {
    feed_all(advance(stack), listings)
}

/// What the walk asks for from a point at which no listing is awaited, while
/// it is fed the given listings.
#[verifier::opaque]
spec fn asked_on(stack: Seq<FrameView>, listings: Seq<Seq<ItemView>>) -> Seq<Option<PathBuf>> {
    requests_during(advance(stack), listings)
}

/// The walk takes up a file and goes on.
proof fn lemma_take_file(above: Seq<FrameView>, top: FrameView, listings: Seq<Seq<ItemView>>)
    requires
        top.rest.len() > 0,
        !top.rest[0].is_dir,
    ensures
        walk_on(above.push(top), listings) == walk_on(
            above.push(
                FrameView {
                    rest: top.rest.drop_first(),
                    built: top.built.push(
                        EntryView::File { name: top.rest[0].name, path: top.rest[0].path },
                    ),
                    ..top
                },
            ),
            listings,
        ),
        asked_on(above.push(top), listings) == asked_on(
            above.push(
                FrameView {
                    rest: top.rest.drop_first(),
                    built: top.built.push(
                        EntryView::File { name: top.rest[0].name, path: top.rest[0].path },
                    ),
                    ..top
                },
            ),
            listings,
        ),
{
    reveal(walk_on);
    reveal(asked_on);
    assert(above.push(top).drop_last() =~= above);
}

/// The walk stops at a directory; fed its listing, it goes on inside it.
proof fn lemma_enter_directory(
    above: Seq<FrameView>,
    top: FrameView,
    listing: Seq<ItemView>,
    others: Seq<Seq<ItemView>>,
)
    requires
        top.rest.len() > 0,
        top.rest[0].is_dir,
    ensures
        walk_on(above.push(top), seq![listing] + others) == walk_on(
            above.push(FrameView { rest: top.rest.drop_first(), ..top }).push(
                FrameView {
                    name: top.rest[0].name,
                    path: top.rest[0].path,
                    rest: listing,
                    built: Seq::empty(),
                },
            ),
            others,
        ),
        asked_on(above.push(top), seq![listing] + others) == seq![Some(top.rest[0].path)]
            + asked_on(
            above.push(FrameView { rest: top.rest.drop_first(), ..top }).push(
                FrameView {
                    name: top.rest[0].name,
                    path: top.rest[0].path,
                    rest: listing,
                    built: Seq::empty(),
                },
            ),
            others,
        ),
{
    reveal(walk_on);
    reveal(asked_on);
    let stack = above.push(top);
    let held = above.push(FrameView { rest: top.rest.drop_first(), ..top });
    let fresh = FrameView {
        name: top.rest[0].name,
        path: top.rest[0].path,
        rest: Seq::empty(),
        built: Seq::empty(),
    };
    assert(stack.drop_last() =~= above);
    assert(advance(stack) == ScannerView { stack: held.push(fresh), outcome: None });
    assert(held.push(fresh).drop_last() =~= held);
    let all = seq![listing] + others;
    assert(all[0] == listing);
    assert(all.drop_first() =~= others);
}

/// At the end of a listing the walk leaves the directory: its entries, in
/// order of name, make the entry that is added to the listing above.
proof fn lemma_leave_directory(
    above: Seq<FrameView>,
    parent: FrameView,
    top: FrameView,
    listings: Seq<Seq<ItemView>>,
)
    requires
        top.rest.len() == 0,
    ensures
        walk_on(above.push(parent).push(top), listings) == walk_on(
            above.push(
                FrameView {
                    built: parent.built.push(
                        EntryView::Directory {
                            name: top.name,
                            path: top.path,
                            children: sort_by_name(top.built),
                        },
                    ),
                    ..parent
                },
            ),
            listings,
        ),
        asked_on(above.push(parent).push(top), listings) == asked_on(
            above.push(
                FrameView {
                    built: parent.built.push(
                        EntryView::Directory {
                            name: top.name,
                            path: top.path,
                            children: sort_by_name(top.built),
                        },
                    ),
                    ..parent
                },
            ),
            listings,
        ),
{
    reveal(walk_on);
    reveal(asked_on);
    let stack = above.push(parent).push(top);
    assert(stack.take(stack.len() - 2) =~= above);
}

/// The walk through the entries `s` at the head of the innermost listing:
/// fed the listings below `s`, it arrives where those entries have all been
/// built, and has used up exactly those listings.
proof fn lemma_walk(
    above: Seq<FrameView>,
    top: FrameView,
    s: Seq<EntryView>,
    tail: Seq<ItemView>,
    more: Seq<Seq<ItemView>>,
)
    requires
        top.rest == items_of(s) + tail,
    ensures
        walk_on(above.push(top), listings_below(s) + more) == walk_on(
            above.push(FrameView { rest: tail, built: top.built + snapshot_each(s), ..top }),
            more,
        ),
        asked_on(above.push(top), listings_below(s) + more) == requests_for(directories_below(s))
            + asked_on(
            above.push(FrameView { rest: tail, built: top.built + snapshot_each(s), ..top }),
            more,
        ),
    decreases s,
{
    let end = above.push(FrameView { rest: tail, built: top.built + snapshot_each(s), ..top });
    if s.len() == 0 {
        assert(items_of(s) + tail =~= tail);
        assert(top.built + snapshot_each(s) =~= top.built);
        assert(listings_below(s) + more =~= more);
        assert(requests_for(directories_below(s)) + asked_on(end, more) =~= asked_on(end, more));
    } else {
        let later = s.drop_first();
        let after = listings_below(later) + more;
        assert(top.rest[0] == item_of(s[0]));
        assert(top.rest.drop_first() =~= items_of(later) + tail);
        let held = FrameView { rest: top.rest.drop_first(), ..top };
        let next = FrameView { built: top.built.push(snapshot_entry(s[0])), ..held };
        assert(listings_below(s) == listings_of(s[0]) + listings_below(later));
        assert(directories_below(s) == directories_of(s[0]) + directories_below(later));
        let asked_later = requests_for(directories_below(later)) + asked_on(end, more);
        match s[0] {
            EntryView::File { name, path } => {
                lemma_take_file(above, top, after);
                assert(listings_of(s[0]) =~= Seq::<Seq<ItemView>>::empty());
                assert(listings_below(s) + more =~= after);
                assert(requests_for(directories_below(s)) + asked_on(end, more) =~= asked_later);
            },
            EntryView::Directory { name, path, children } => {
                let inner = FrameView { name, path, rest: items_of(children), built: Seq::empty() };
                let full = FrameView { built: snapshot_each(children), rest: Seq::empty(), ..inner };
                // Entering the directory uses up its own listing.
                lemma_enter_directory(above, top, items_of(children), listings_below(children) + after);
                assert(listings_below(s) + more =~= seq![items_of(children)] + (listings_below(
                    children,
                ) + after));
                // Inside the directory.
                assert(inner.rest =~= items_of(children) + Seq::<ItemView>::empty());
                lemma_walk(above.push(held), inner, children, Seq::empty(), after);
                assert(inner.built + snapshot_each(children) =~= snapshot_each(children));
                // Leaving it adds the directory to the listing above.
                lemma_leave_directory(above, held, full, after);
                assert(requests_for(directories_below(s)) + asked_on(end, more) =~= seq![Some(path)]
                    + (requests_for(directories_below(children)) + asked_later));
            },
        }
        // The entries after the first.
        lemma_walk(above, next, later, tail, more);
        assert(next.built + snapshot_each(later) =~= top.built + snapshot_each(s));
    }
}

/// A scan whose requests are answered from the tree `disk` ends, after the
/// listings of the root and of every directory below it, one each, with the
/// snapshot of `disk`.
pub proof fn lemma_scan_yields_snapshot(root: PathBuf, disk: Seq<EntryView>)
    ensures
        feed_all(ScannerView::start(root), listings_of_tree(disk)) == ended_with(snapshot(disk)),
        requests_during(ScannerView::start(root), listings_of_tree(disk)) == requests_for(
            seq![root] + directories_below(disk),
        ),
{
    let start = ScannerView::start(root);
    let none = Seq::<FrameView>::empty();
    let first = FrameView { rest: items_of(disk), ..start.stack.last() };
    let last = FrameView { rest: Seq::empty(), built: snapshot_each(disk), ..first };
    let all = listings_of_tree(disk);
    assert(feed_all(start, all) == walk_on(none.push(first), listings_below(disk))) by {
        reveal(walk_on);
        assert(start.stack.drop_last() =~= none);
        assert(all[0] == items_of(disk));
        assert(all.drop_first() =~= listings_below(disk));
    }
    assert(walk_on(none.push(first), listings_below(disk)) == walk_on(none.push(last), Seq::empty()))
        by {
        assert(first.rest =~= items_of(disk) + Seq::<ItemView>::empty());
        lemma_walk(none, first, disk, Seq::empty(), Seq::empty());
        assert(listings_below(disk) + Seq::<Seq<ItemView>>::empty() =~= listings_below(disk));
        assert(first.built + snapshot_each(disk) =~= snapshot_each(disk));
    }
    assert(walk_on(none.push(last), Seq::empty()) == ended_with(snapshot(disk))) by {
        reveal(walk_on);
    }
    assert(requests_during(start, all) == seq![Some(root)] + asked_on(
        none.push(first),
        listings_below(disk),
    )) by {
        reveal(asked_on);
        assert(start.stack.drop_last() =~= none);
        assert(all[0] == items_of(disk));
        assert(all.drop_first() =~= listings_below(disk));
    }
    assert(asked_on(none.push(first), listings_below(disk)) == requests_for(
        directories_below(disk),
    )) by {
        reveal(asked_on);
        assert(first.rest =~= items_of(disk) + Seq::<ItemView>::empty());
        lemma_walk(none, first, disk, Seq::empty(), Seq::empty());
        assert(listings_below(disk) + Seq::<Seq<ItemView>>::empty() =~= listings_below(disk));
        assert(first.built + snapshot_each(disk) =~= snapshot_each(disk));
        assert(asked_on(none.push(last), Seq::empty()) =~= Seq::<Option<PathBuf>>::empty());
        assert(requests_for(directories_below(disk)) + Seq::<Option<PathBuf>>::empty()
            =~= requests_for(directories_below(disk)));
    }
    assert(requests_during(start, all) =~= requests_for(seq![root] + directories_below(disk)));
}

/// Scanning an empty directory yields the empty snapshot, with no failure.
pub proof fn lemma_scan_of_empty_directory(root: PathBuf)
    ensures
        ScannerView::start(root).feed(Ok(Seq::empty())) == ended_with(Seq::empty()),
{
    let start = ScannerView::start(root);
    let first = start.stack.drop_last().push(FrameView { rest: Seq::empty(), ..start.stack.last() });
    assert(advance(first) == ended_with(sort_by_name(Seq::empty())));
}

/// A failure to read any directory ends the scan with that failure; no part
/// of the tree is kept.
pub proof fn lemma_failure_ends_scan(scan: ScannerView, failure: ScanFailure)
    requires
        scan.request() is Some,
    ensures
        scan.feed(Err(failure)) == (ScannerView { stack: Seq::empty(), outcome: Some(Err(failure)) }),
        scan.feed(Err(failure)).request() is None,
{
}

/// A scan that has ended asks for nothing and is changed by nothing.
pub proof fn lemma_ended_scan_stays(scan: ScannerView, listing: Result<Seq<ItemView>, ScanFailure>)
    requires
        scan.outcome is Some,
    ensures
        scan.request() is None,
        scan.feed(listing) == scan,
{
}

/// In a snapshot every listing, at every depth, is in ascending order of name.
pub proof fn lemma_snapshot_ordered(disk: Seq<EntryView>)
    ensures
        sorted_at_every_level(snapshot(disk)),
    decreases disk, 1int,
{
    let each = snapshot_each(disk);
    assert forall|i: int| 0 <= i < each.len() implies (#[trigger] each[i]).sorted_within() by {
        lemma_snapshot_entry_ordered(disk[i]);
    }
    lemma_sorted_listing_ordered(each);
}

/// The snapshot of an entry has every listing inside it in order of name.
pub proof fn lemma_snapshot_entry_ordered(e: EntryView)
    ensures
        snapshot_entry(e).sorted_within(),
    decreases e, 0int,
{
    if let EntryView::Directory { children, .. } = e {
        lemma_snapshot_ordered(children);
    }
}

/// Adding an entry to a listing adds its entries to the count.
proof fn lemma_insert_counts(s: Seq<EntryView>, e: EntryView)
    ensures
        count_entries(insert_by_name(s, e)) == count_entries(s) + e.count(),
    decreases s.len(),
{
    if s.len() == 0 || crate::order::name_le(s.last().name(), e.name()) {
        assert(s.push(e).drop_last() =~= s);
    } else {
        lemma_insert_counts(s.drop_last(), e);
        assert(insert_by_name(s.drop_last(), e).push(s.last()).drop_last() =~= insert_by_name(
            s.drop_last(),
            e,
        ));
    }
}

/// Putting a listing in order does not change how many entries it holds.
proof fn lemma_sort_counts(s: Seq<EntryView>)
    ensures
        count_entries(sort_by_name(s)) == count_entries(s),
    decreases s.len(),
{
    if s.len() > 0 {
        lemma_sort_counts(s.drop_last());
        lemma_insert_counts(sort_by_name(s.drop_last()), s.last());
    }
}

/// The first `n` entries of a listing have as many entries in their
/// snapshots as they have themselves.
proof fn lemma_snapshot_each_counts(s: Seq<EntryView>, n: int)
    requires
        0 <= n <= s.len(),
    ensures
        count_entries(snapshot_each(s).take(n)) == count_entries(s.take(n)),
    decreases s, 0int, n,
{
    if n > 0 {
        lemma_snapshot_each_counts(s, n - 1);
        lemma_snapshot_entry_counts(s[n - 1]);
        assert(snapshot_each(s).take(n).drop_last() =~= snapshot_each(s).take(n - 1));
        assert(s.take(n).drop_last() =~= s.take(n - 1));
    }
}

/// The snapshot of an entry holds as many entries as the entry.
pub proof fn lemma_snapshot_entry_counts(e: EntryView)
    ensures
        snapshot_entry(e).count() == e.count(),
    decreases e, 0int, 0int,
{
    if let EntryView::Directory { children, .. } = e {
        lemma_snapshot_counts(children);
    }
}

/// A snapshot holds every entry of the tree once: it has as many entries, at
/// all depths, as the tree.
pub proof fn lemma_snapshot_counts(disk: Seq<EntryView>)
    ensures
        count_entries(snapshot(disk)) == count_entries(disk),
        snapshot(disk).len() == disk.len(),
    decreases disk, 1int, 0int,
{
    lemma_snapshot_each_counts(disk, disk.len() as int);
    assert(snapshot_each(disk).take(disk.len() as int) =~= snapshot_each(disk));
    assert(disk.take(disk.len() as int) =~= disk);
    lemma_sort_counts(snapshot_each(disk));
    crate::sort::lemma_sort_orders(snapshot_each(disk));
}

/// No two entries of one listing share a name, in `s` and in every listing
/// below it.
pub open spec fn names_distinct_everywhere(s: Seq<EntryView>) -> bool
    decreases s,
{
    &&& distinct_names(s)
    &&& forall|i: int| 0 <= i < s.len() ==> names_distinct_within(#[trigger] s[i])
}

/// No two entries of one listing share a name, in every listing inside `e`.
pub open spec fn names_distinct_within(e: EntryView) -> bool
    decreases e,
{
    match e {
        EntryView::File { .. } => true,
        EntryView::Directory { children, .. } => names_distinct_everywhere(children),
    }
}

/// The listings `a` and `b` hold the same entries, in whatever order each:
/// every entry of `a` is matched by one of `b`, and none of `b` is left over.
/// Directories match when their own entries do, in whatever order.
pub open spec fn same_listing(a: Seq<EntryView>, b: Seq<EntryView>) -> bool
    decreases a,
{
    if a.len() == 0 {
        b.len() == 0
    } else {
        exists|j: int|
            0 <= j < b.len() && same_entry(a.last(), #[trigger] b[j]) && same_listing(
                a.drop_last(),
                b.remove(j),
            )
    }
}

/// The entries `x` and `y` are the same file, or the same directory with the
/// same entries in whatever order.
pub open spec fn same_entry(x: EntryView, y: EntryView) -> bool
    decreases x,
{
    match x {
        EntryView::File { .. } => x == y,
        EntryView::Directory { name, path, children } => {
            &&& y is Directory
            &&& y.name() == name
            &&& y.path() == path
            &&& same_listing(children, y->children)
        },
    }
}

/// A listing holds the same entries as itself.
pub proof fn lemma_same_listing_reflexive(a: Seq<EntryView>)
    ensures
        same_listing(a, a),
    decreases a, 1int,
{
    if a.len() > 0 {
        let j = a.len() - 1;
        lemma_same_entry_reflexive(a[j]);
        lemma_same_listing_reflexive(a.drop_last());
        assert(a.remove(j) =~= a.drop_last());
        assert(same_entry(a.last(), a[j]));
    }
}

/// An entry is the same as itself.
pub proof fn lemma_same_entry_reflexive(x: EntryView)
    ensures
        same_entry(x, x),
    decreases x, 0int,
{
    if let EntryView::Directory { children, .. } = x {
        lemma_same_listing_reflexive(children);
    }
}

/// Entries that are the same up to the order of their listings have the same
/// snapshot.
proof fn lemma_same_entry_same_snapshot(x: EntryView, y: EntryView)
    requires
        same_entry(x, y),
        names_distinct_within(x),
    ensures
        snapshot_entry(x) == snapshot_entry(y),
    decreases x, 0int,
{
    if let EntryView::Directory { children, .. } = x {
        lemma_same_listing_same_snapshot(children, y->children);
    }
}

/// Listings that hold the same entries up to order hold, entry by entry, the
/// same snapshots, each as often in one as in the other.
proof fn lemma_same_listing_same_entries(a: Seq<EntryView>, b: Seq<EntryView>)
    requires
        same_listing(a, b),
        names_distinct_everywhere(a),
    ensures
        snapshot_each(a).to_multiset() == snapshot_each(b).to_multiset(),
    decreases a, 0int,
{
    let sa = snapshot_each(a);
    let sb = snapshot_each(b);
    if a.len() == 0 {
        assert(sa =~= sb);
    } else {
        let j = choose|j: int|
            0 <= j < b.len() && same_entry(a.last(), #[trigger] b[j]) && same_listing(
                a.drop_last(),
                b.remove(j),
            );
        assert(names_distinct_everywhere(a.drop_last())) by {
            assert forall|i: int| 0 <= i < a.drop_last().len() implies names_distinct_within(
                #[trigger] a.drop_last()[i],
            ) by {
                assert(names_distinct_within(a[i]));
            }
            assert forall|i: int, k: int|
                0 <= i < a.len() - 1 && 0 <= k < a.len() - 1 && i != k implies #[trigger] a.drop_last()[i].name()
                != #[trigger] a.drop_last()[k].name() by {
                assert(a[i].name() != a[k].name());
            }
        }
        lemma_same_listing_same_entries(a.drop_last(), b.remove(j));
        assert(names_distinct_within(a[a.len() - 1]));
        lemma_same_entry_same_snapshot(a.last(), b[j]);
        assert(sa.drop_last() =~= snapshot_each(a.drop_last()));
        assert(sb.remove(j) =~= snapshot_each(b.remove(j)));
        assert(sa.last() == sb[j]);
        sa.drop_last().to_multiset_ensures();
        sb.to_multiset_ensures();
        assert(sa =~= sa.drop_last().push(sa.last()));
        assert(sb.contains(sb[j]));
        assert(sb.to_multiset() =~= sb.remove(j).to_multiset().insert(sb[j]));
    }
}

/// Trees that are the same up to the order of their listings have the same
/// snapshot, provided that no directory holds two entries of one name.
pub proof fn lemma_same_listing_same_snapshot(a: Seq<EntryView>, b: Seq<EntryView>)
    requires
        same_listing(a, b),
        names_distinct_everywhere(a),
    ensures
        snapshot(a) == snapshot(b),
    decreases a, 1int,
{
    lemma_same_listing_same_entries(a, b);
    let sa = snapshot_each(a);
    assert(distinct_names(sa)) by {
        assert forall|i: int, k: int|
            0 <= i < sa.len() && 0 <= k < sa.len() && i != k implies #[trigger] sa[i].name()
            != #[trigger] sa[k].name() by {
            assert(sa[i].name() == a[i].name());
            assert(sa[k].name() == a[k].name());
        }
    }
    lemma_sort_ignores_given_order(sa, snapshot_each(b));
}

/// Two scans of a tree that has not changed in between, each answered from
/// it, end with the same snapshot.
pub proof fn lemma_rescan_yields_same_tree(
    root: PathBuf,
    disk: Seq<EntryView>,
    first: ScannerView,
    second: ScannerView,
)
    requires
        first == feed_all(ScannerView::start(root), listings_of_tree(disk)),
        second == feed_all(ScannerView::start(root), listings_of_tree(disk)),
    ensures
        first == second,
        first.outcome == Some(Ok::<Seq<EntryView>, ScanFailure>(snapshot(disk))),
{
    lemma_scan_yields_snapshot(root, disk);
}

/// Scanning does not depend on the order in which the file system lists the
/// entries of a directory: two scans of the same tree, each answered in its
/// own order, end with the same snapshot, provided that no directory holds
/// two entries of one name.
pub proof fn lemma_scan_ignores_listing_order(
    root: PathBuf,
    first: Seq<EntryView>,
    second: Seq<EntryView>,
)
    requires
        same_listing(first, second),
        names_distinct_everywhere(first),
    ensures
        feed_all(ScannerView::start(root), listings_of_tree(first)) == feed_all(
            ScannerView::start(root),
            listings_of_tree(second),
        ),
{
    lemma_scan_yields_snapshot(root, first);
    lemma_scan_yields_snapshot(root, second);
    lemma_same_listing_same_snapshot(first, second);
}

} // verus!
