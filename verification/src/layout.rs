//! The order in which a tree view shows a listing: directories before files.
//! The snapshot itself keeps files and directories mixed, in order of name.

use crate::tree::entry_views;
use crate::tree::EntryView;
use crate::tree::FileEntry;
use vstd::prelude::*;

verus! {

/// The positions in `s` of the directories (`dirs` true) or of the files
/// (`dirs` false), in ascending order.
pub open spec fn positions_of(s: Seq<EntryView>, dirs: bool) -> Seq<int>
    decreases s.len(),
{
    if s.len() == 0 {
        Seq::empty()
    } else if (s.last() is Directory) == dirs {
        positions_of(s.drop_last(), dirs).push(s.len() - 1)
    } else {
        positions_of(s.drop_last(), dirs)
    }
}

/// The positions of a listing in the order in which they are shown: those of
/// the directories, then those of the files, each group in the order of the
/// listing.
pub open spec fn shown_order(s: Seq<EntryView>) -> Seq<int> {
    positions_of(s, true) + positions_of(s, false)
}

/// Every position that `positions_of` gives is one of the listing and holds
/// an entry of the kind asked for, and they ascend.
pub proof fn lemma_positions_of(s: Seq<EntryView>, dirs: bool)
    ensures
        forall|k: int|
            0 <= k < positions_of(s, dirs).len() ==> {
                let p = #[trigger] positions_of(s, dirs)[k];
                0 <= p < s.len() && (s[p] is Directory) == dirs
            },
        forall|j: int, k: int|
            0 <= j < k < positions_of(s, dirs).len() ==> positions_of(s, dirs)[j] < positions_of(
                s,
                dirs,
            )[k],
        forall|p: int|
            0 <= p < s.len() && (s[p] is Directory) == dirs ==> positions_of(s, dirs).contains(p),
    decreases s.len(),
{
    if s.len() > 0 {
        let front = s.drop_last();
        lemma_positions_of(front, dirs);
        let r = positions_of(s, dirs);
        let rf = positions_of(front, dirs);
        assert forall|p: int| 0 <= p < s.len() && (s[p] is Directory) == dirs implies r.contains(
            p,
        ) by {
            if p < s.len() - 1 {
                assert(front[p] == s[p]);
                assert(rf.contains(p));
                let k = choose|k: int| 0 <= k < rf.len() && rf[k] == p;
                assert(r[k] == p);
            } else {
                assert(r[r.len() - 1] == p);
            }
        }
        assert forall|k: int| 0 <= k < r.len() implies {
            let p = #[trigger] r[k];
            0 <= p < s.len() && (s[p] is Directory) == dirs
        } by {
            if k < rf.len() {
                assert(r[k] == rf[k]);
                assert(front[rf[k]] == s[rf[k]]);
            }
        }
        assert forall|j: int, k: int| 0 <= j < k < r.len() implies r[j] < r[k] by {
            assert(r[j] == rf[j]);
            if k < rf.len() {
                assert(r[k] == rf[k]);
            }
        }
    }
}

/// The shown order has every position of the listing once.
pub proof fn lemma_shown_order_complete(s: Seq<EntryView>)
    ensures
        shown_order(s).len() == s.len(),
        positions_of(s, true).len() + positions_of(s, false).len() == s.len(),
    decreases s.len(),
{
    if s.len() > 0 {
        lemma_shown_order_complete(s.drop_last());
    }
}

/// The positions of the entries in the order in which a tree view shows them:
/// the directories first, then the files, each in the order of the listing.
pub fn directories_first(entries: &Vec<FileEntry>) -> (order: Vec<usize>)
    ensures
        order@.map_values(|p: usize| p as int) == shown_order(entry_views(entries@)),
        order@.len() == entries@.len(),
{
    let ghost s = entry_views(entries@);
    let mut order: Vec<usize> = Vec::new();
    let mut i: usize = 0;
    while i < entries.len()
        invariant
            i <= entries.len(),
            s == entry_views(entries@),
            order@.map_values(|p: usize| p as int) == positions_of(s.take(i as int), true),
        decreases entries.len() - i,
    {
        proof {
            assert(s.take(i + 1).drop_last() =~= s.take(i as int));
            assert(s.take(i + 1).last() == entries[i as int]@);
        }
        let ghost before = order@;
        if entries[i].is_dir() {
            order.push(i);
            assert(order@.map_values(|p: usize| p as int) =~= before.map_values(
                |p: usize| p as int,
            ).push(i as int));
        }
        i += 1;
    }
    proof {
        assert(s.take(entries.len() as int) =~= s);
        assert(positions_of(s.take(0), false) =~= Seq::<int>::empty());
        assert(positions_of(s, true) + Seq::<int>::empty() =~= positions_of(s, true));
    }
    i = 0;
    while i < entries.len()
        invariant
            i <= entries.len(),
            s == entry_views(entries@),
            order@.map_values(|p: usize| p as int) == positions_of(s, true) + positions_of(
                s.take(i as int),
                false,
            ),
        decreases entries.len() - i,
    {
        proof {
            assert(s.take(i + 1).drop_last() =~= s.take(i as int));
            assert(s.take(i + 1).last() == entries[i as int]@);
        }
        let ghost before = order@;
        if !entries[i].is_dir() {
            order.push(i);
            assert(order@.map_values(|p: usize| p as int) =~= before.map_values(
                |p: usize| p as int,
            ).push(i as int));
            assert((positions_of(s, true) + positions_of(s.take(i as int), false)).push(i as int)
                =~= positions_of(s, true) + positions_of(s.take(i as int), false).push(i as int));
        }
        i += 1;
    }
    proof {
        assert(s.take(s.len() as int) =~= s);
        lemma_shown_order_complete(s);
    }
    order
}

} // verus!
