//! Ordering a listing by name. Entries whose names compare equal keep the
//! order in which they were given.

use crate::order::lemma_name_le_antisymmetric;
use crate::order::lemma_name_le_reflexive;
use crate::order::lemma_name_le_total;
use crate::order::lemma_name_le_transitive;
use crate::order::name_le;
use crate::order::names_in_order;
use crate::tree::entry_views;
use crate::tree::sorted_by_name;
use crate::tree::EntryView;
use crate::tree::FileEntry;
use vstd::prelude::*;

verus! {

/// The listing `s` with `e` added behind the last entry whose name is listed
/// no later than that of `e`.
pub open spec fn insert_by_name(s: Seq<EntryView>, e: EntryView) -> Seq<EntryView>
    decreases s.len(),
{
    if s.len() == 0 || name_le(s.last().name(), e.name()) {
        s.push(e)
    } else {
        insert_by_name(s.drop_last(), e).push(s.last())
    }
}

/// The entries of `s` in ascending order of name; entries with equal names
/// stay in the order they have in `s`.
pub open spec fn sort_by_name(s: Seq<EntryView>) -> Seq<EntryView>
    decreases s.len(),
{
    if s.len() == 0 {
        s
    } else {
        insert_by_name(sort_by_name(s.drop_last()), s.last())
    }
}

/// Adding an entry to an ordered listing leaves it ordered.
pub proof fn lemma_insert_keeps_order(s: Seq<EntryView>, e: EntryView)
    requires
        sorted_by_name(s),
    ensures
        sorted_by_name(insert_by_name(s, e)),
        insert_by_name(s, e).len() == s.len() + 1,
        insert_by_name(s, e).to_multiset() == s.to_multiset().insert(e),
    decreases s.len(),
{
    broadcast use vstd::seq_lib::group_to_multiset_ensures;

    let r = insert_by_name(s, e);
    if s.len() == 0 || name_le(s.last().name(), e.name()) {
        assert forall|i: int, j: int| 0 <= i < j < r.len() implies name_le(
            #[trigger] r[i].name(),
            #[trigger] r[j].name(),
        ) by {
            if j == s.len() && i < s.len() - 1 {
                lemma_name_le_transitive(s[i].name(), s.last().name(), e.name());
            }
        }
    } else {
        let front = s.drop_last();
        let inner = insert_by_name(front, e);
        lemma_insert_keeps_order(front, e);
        lemma_name_le_total(s.last().name(), e.name());
        assert(s =~= front.push(s.last()));
        assert forall|i: int, j: int| 0 <= i < j < r.len() implies name_le(
            #[trigger] r[i].name(),
            #[trigger] r[j].name(),
        ) by {
            if j == inner.len() {
                // r[i] is an entry of `inner`: the new one, or one of `front`.
                assert(inner.to_multiset().count(inner[i]) > 0);
                if inner[i] != e {
                    assert(front.to_multiset().count(inner[i]) > 0);
                    let k = choose|k: int| 0 <= k < front.len() && front[k] == inner[i];
                    assert(name_le(s[k].name(), s[s.len() - 1].name()));
                }
            }
        }
        assert(s.to_multiset() =~= front.to_multiset().insert(s.last()));
        assert(r.to_multiset() =~= s.to_multiset().insert(e));
    }
}

/// Sorting yields an ordered listing that holds the same entries, each as
/// often as before.
pub proof fn lemma_sort_orders(s: Seq<EntryView>)
    ensures
        sorted_by_name(sort_by_name(s)),
        sort_by_name(s).len() == s.len(),
        sort_by_name(s).to_multiset() == s.to_multiset(),
    decreases s.len(),
{
    broadcast use vstd::seq_lib::group_to_multiset_ensures;

    if s.len() > 0 {
        lemma_sort_orders(s.drop_last());
        lemma_insert_keeps_order(sort_by_name(s.drop_last()), s.last());
        assert(s =~= s.drop_last().push(s.last()));
    }
}

/// A listing that is already ordered is left as it is.
pub proof fn lemma_sort_keeps_ordered(s: Seq<EntryView>)
    requires
        sorted_by_name(s),
    ensures
        sort_by_name(s) == s,
    decreases s.len(),
{
    if s.len() > 0 {
        lemma_sort_keeps_ordered(s.drop_last());
        if s.len() > 1 {
            assert(name_le(s[s.len() - 2].name(), s[s.len() - 1].name()));
        }
        assert(s.drop_last().push(s.last()) =~= s);
    }
}

/// The entries of `s` that have the name `name`, in the order they have in `s`.
pub open spec fn entries_named(s: Seq<EntryView>, name: Seq<char>) -> Seq<EntryView>
    decreases s.len(),
{
    if s.len() == 0 {
        s
    } else if s.last().name() == name {
        entries_named(s.drop_last(), name).push(s.last())
    } else {
        entries_named(s.drop_last(), name)
    }
}

/// An entry that is added to a listing comes behind the entries of its name.
pub proof fn lemma_insert_stable(s: Seq<EntryView>, e: EntryView, name: Seq<char>)
    ensures
        entries_named(insert_by_name(s, e), name) == if e.name() == name {
            entries_named(s, name).push(e)
        } else {
            entries_named(s, name)
        },
    decreases s.len(),
{
    if s.len() == 0 || name_le(s.last().name(), e.name()) {
        assert(s.push(e).drop_last() =~= s);
    } else {
        let inner = insert_by_name(s.drop_last(), e);
        lemma_insert_stable(s.drop_last(), e, name);
        assert(inner.push(s.last()).drop_last() =~= inner);
        if e.name() == name && s.last().name() == name {
            lemma_name_le_reflexive(name);
        }
    }
}

/// Sorting is stable: the entries of any one name come out in the order in
/// which they were given.
pub proof fn lemma_sort_stable(s: Seq<EntryView>, name: Seq<char>)
    ensures
        entries_named(sort_by_name(s), name) == entries_named(s, name),
    decreases s.len(),
{
    if s.len() > 0 {
        lemma_sort_stable(s.drop_last(), name);
        lemma_insert_stable(sort_by_name(s.drop_last()), s.last(), name);
    }
}

/// No two entries of the listing share a name.
pub open spec fn distinct_names(s: Seq<EntryView>) -> bool {
    forall|i: int, j: int|
        0 <= i < s.len() && 0 <= j < s.len() && i != j ==> #[trigger] s[i].name() != #[trigger] s[j].name()
}

/// Two ordered listings that hold the same entries, none of which share a
/// name, are the same listing.
pub proof fn lemma_ordered_listing_unique(a: Seq<EntryView>, b: Seq<EntryView>)
    requires
        sorted_by_name(a),
        sorted_by_name(b),
        distinct_names(a),
        a.to_multiset() == b.to_multiset(),
    ensures
        a == b,
    decreases a.len(),
{
    broadcast use vstd::seq_lib::group_to_multiset_ensures;

    a.to_multiset_ensures();
    b.to_multiset_ensures();
    assert(a.len() == b.len());
    if a.len() == 0 {
        assert(a =~= b);
    } else {
        let n = a.len() as int;
        let x = a[n - 1];
        let y = b[n - 1];
        assert(a.contains(x));
        assert(b.to_multiset().count(x) > 0);
        assert(b.contains(x));
        let k = choose|k: int| 0 <= k < n && b[k] == x;
        assert(b.contains(y));
        assert(a.to_multiset().count(y) > 0);
        assert(a.contains(y));
        let m = choose|m: int| 0 <= m < n && a[m] == y;
        if k < n - 1 && m < n - 1 {
            assert(name_le(b[k].name(), b[n - 1].name()));
            assert(name_le(a[m].name(), a[n - 1].name()));
            lemma_name_le_antisymmetric(x.name(), y.name());
            assert(a[m].name() == a[n - 1].name());
            assert(false);
        }
        assert(x == y);
        assert(a.remove(n - 1) =~= a.drop_last());
        assert(b.remove(n - 1) =~= b.drop_last());
        assert(a.drop_last().to_multiset() == b.drop_last().to_multiset());
        assert(distinct_names(a.drop_last())) by {
            assert forall|i: int, j: int|
                0 <= i < n - 1 && 0 <= j < n - 1 && i != j implies #[trigger] a.drop_last()[i].name()
                != #[trigger] a.drop_last()[j].name() by {
                assert(a[i].name() != a[j].name());
            }
        }
        assert(sorted_by_name(a.drop_last())) by {
            assert forall|i: int, j: int| 0 <= i < j < n - 1 implies name_le(
                #[trigger] a.drop_last()[i].name(),
                #[trigger] a.drop_last()[j].name(),
            ) by {
                assert(name_le(a[i].name(), a[j].name()));
            }
        }
        assert(sorted_by_name(b.drop_last())) by {
            assert forall|i: int, j: int| 0 <= i < j < n - 1 implies name_le(
                #[trigger] b.drop_last()[i].name(),
                #[trigger] b.drop_last()[j].name(),
            ) by {
                assert(name_le(b[i].name(), b[j].name()));
            }
        }
        lemma_ordered_listing_unique(a.drop_last(), b.drop_last());
        assert(a =~= a.drop_last().push(x));
        assert(b =~= b.drop_last().push(y));
    }
}

/// Sorting does not depend on the order in which the entries were given, as
/// long as no two of them share a name.
pub proof fn lemma_sort_ignores_given_order(a: Seq<EntryView>, b: Seq<EntryView>)
    requires
        a.to_multiset() == b.to_multiset(),
        distinct_names(a),
    ensures
        sort_by_name(a) == sort_by_name(b),
{
    broadcast use vstd::seq_lib::group_to_multiset_ensures;

    lemma_sort_orders(a);
    lemma_sort_orders(b);
    let sa = sort_by_name(a);
    assert(distinct_names(sa)) by {
        assert forall|i: int, j: int|
            0 <= i < sa.len() && 0 <= j < sa.len() && i != j implies #[trigger] sa[i].name()
            != #[trigger] sa[j].name() by {
            lemma_distinct_names_permuted(a, sa, i, j);
        }
    }
    lemma_ordered_listing_unique(sa, sort_by_name(b));
}

/// In a rearrangement of a listing without shared names, two positions hold
/// different names.
proof fn lemma_distinct_names_permuted(a: Seq<EntryView>, p: Seq<EntryView>, i: int, j: int)
    requires
        a.to_multiset() == p.to_multiset(),
        distinct_names(a),
        0 <= i < p.len(),
        0 <= j < p.len(),
        i != j,
    ensures
        p[i].name() != p[j].name(),
{
    broadcast use vstd::seq_lib::group_to_multiset_ensures;

    let (lo, hi) = if i < j { (i, j) } else { (j, i) };
    // Take the later of the two out of `p`; the earlier one is still there.
    let rest = p.remove(hi);
    assert(rest[lo] == p[lo]);
    assert(rest.contains(p[lo]));
    assert(rest.to_multiset().count(p[lo]) > 0);
    assert(rest.to_multiset() == p.to_multiset().remove(p[hi]));
    a.to_multiset_ensures();
    p.to_multiset_ensures();
    assert(p.contains(p[hi]));
    assert(a.to_multiset().count(p[hi]) > 0);
    assert(a.contains(p[hi]));
    let h = choose|h: int| 0 <= h < a.len() && a[h] == p[hi];
    let a_rest = a.remove(h);
    assert(a_rest.to_multiset() == a.to_multiset().remove(a[h]));
    assert(a_rest.to_multiset().count(p[lo]) > 0);
    assert(a_rest.contains(p[lo]));
    let l0 = choose|l: int| 0 <= l < a_rest.len() && a_rest[l] == p[lo];
    let l = if l0 < h { l0 } else { l0 + 1 };
    assert(a[l] == p[lo]);
    assert(l != h);
    assert(a[l].name() != a[h].name());
}

/// Every entry of the listing has a name that is listed no later than `bound`.
spec fn all_at_most(s: Seq<EntryView>, bound: Seq<char>) -> bool {
    forall|i: int| 0 <= i < s.len() ==> name_le(#[trigger] s[i].name(), bound)
}

/// Two ordered listings made one, taken from their ends: the later of the two
/// last entries comes last, and of two with equal names the one of `b`.
spec fn merge_by_name(a: Seq<EntryView>, b: Seq<EntryView>) -> Seq<EntryView>
    decreases a.len() + b.len(),
{
    if a.len() == 0 {
        b
    } else if b.len() == 0 {
        a
    } else if name_le(a.last().name(), b.last().name()) {
        merge_by_name(a, b.drop_last()).push(b.last())
    } else {
        merge_by_name(a.drop_last(), b).push(a.last())
    }
}

/// What bounds both listings bounds the merged one.
proof fn lemma_merge_bounded(a: Seq<EntryView>, b: Seq<EntryView>, bound: Seq<char>)
    requires
        all_at_most(a, bound),
        all_at_most(b, bound),
    ensures
        all_at_most(merge_by_name(a, b), bound),
        merge_by_name(a, b).len() == a.len() + b.len(),
    decreases a.len() + b.len(),
{
    if a.len() > 0 && b.len() > 0 {
        if name_le(a.last().name(), b.last().name()) {
            assert forall|i: int| 0 <= i < b.len() - 1 implies name_le(
                #[trigger] b.drop_last()[i].name(),
                bound,
            ) by {
                assert(name_le(b[i].name(), bound));
            }
            lemma_merge_bounded(a, b.drop_last(), bound);
            assert(name_le(b[b.len() - 1].name(), bound));
        } else {
            assert forall|i: int| 0 <= i < a.len() - 1 implies name_le(
                #[trigger] a.drop_last()[i].name(),
                bound,
            ) by {
                assert(name_le(a[i].name(), bound));
            }
            lemma_merge_bounded(a.drop_last(), b, bound);
            assert(name_le(a[a.len() - 1].name(), bound));
        }
    }
}

/// An ordered listing without its last entry is ordered and bounded by the
/// name of that entry.
proof fn lemma_front_ordered(s: Seq<EntryView>)
    requires
        sorted_by_name(s),
        s.len() > 0,
    ensures
        sorted_by_name(s.drop_last()),
        all_at_most(s.drop_last(), s.last().name()),
        all_at_most(s, s.last().name()),
{
    let front = s.drop_last();
    assert forall|i: int, j: int| 0 <= i < j < front.len() implies name_le(
        #[trigger] front[i].name(),
        #[trigger] front[j].name(),
    ) by {
        assert(name_le(s[i].name(), s[j].name()));
    }
    assert forall|i: int| 0 <= i < front.len() implies name_le(
        #[trigger] front[i].name(),
        s.last().name(),
    ) by {
        assert(name_le(s[i].name(), s[s.len() - 1].name()));
    }
    assert forall|i: int| 0 <= i < s.len() implies name_le(#[trigger] s[i].name(), s.last().name()) by {
        if i < s.len() - 1 {
            assert(name_le(s[i].name(), s[s.len() - 1].name()));
        } else {
            lemma_name_le_reflexive(s[i].name());
        }
    }
}

/// What is bounded by a name is bounded by every later name.
proof fn lemma_bound_raised(s: Seq<EntryView>, bound: Seq<char>, later: Seq<char>)
    requires
        all_at_most(s, bound),
        name_le(bound, later),
    ensures
        all_at_most(s, later),
{
    assert forall|i: int| 0 <= i < s.len() implies name_le(#[trigger] s[i].name(), later) by {
        lemma_name_le_transitive(s[i].name(), bound, later);
    }
}

/// Merging two ordered listings gives an ordered listing.
proof fn lemma_merge_ordered(a: Seq<EntryView>, b: Seq<EntryView>)
    requires
        sorted_by_name(a),
        sorted_by_name(b),
    ensures
        sorted_by_name(merge_by_name(a, b)),
    decreases a.len() + b.len(),
{
    if a.len() > 0 && b.len() > 0 {
        lemma_front_ordered(a);
        lemma_front_ordered(b);
        if name_le(a.last().name(), b.last().name()) {
            let front = merge_by_name(a, b.drop_last());
            lemma_merge_ordered(a, b.drop_last());
            lemma_bound_raised(a, a.last().name(), b.last().name());
            lemma_merge_bounded(a, b.drop_last(), b.last().name());
            let r = front.push(b.last());
            assert forall|i: int, j: int| 0 <= i < j < r.len() implies name_le(
                #[trigger] r[i].name(),
                #[trigger] r[j].name(),
            ) by {
                if j < front.len() {
                    assert(name_le(front[i].name(), front[j].name()));
                } else {
                    assert(name_le(front[i].name(), b.last().name()));
                }
            }
        } else {
            let front = merge_by_name(a.drop_last(), b);
            lemma_merge_ordered(a.drop_last(), b);
            lemma_name_le_total(a.last().name(), b.last().name());
            lemma_bound_raised(b, b.last().name(), a.last().name());
            lemma_merge_bounded(a.drop_last(), b, a.last().name());
            let r = front.push(a.last());
            assert forall|i: int, j: int| 0 <= i < j < r.len() implies name_le(
                #[trigger] r[i].name(),
                #[trigger] r[j].name(),
            ) by {
                if j < front.len() {
                    assert(name_le(front[i].name(), front[j].name()));
                } else {
                    assert(name_le(front[i].name(), a.last().name()));
                }
            }
        }
    }
}

/// A listing that is bounded by a name and holds an entry of the name `name`
/// has `name` listed no later than the bound.
proof fn lemma_named_bounded(s: Seq<EntryView>, name: Seq<char>, bound: Seq<char>)
    requires
        all_at_most(s, bound),
        entries_named(s, name).len() > 0,
    ensures
        name_le(name, bound),
    decreases s.len(),
{
    if s.last().name() == name {
        assert(name_le(s[s.len() - 1].name(), bound));
    } else {
        assert forall|i: int| 0 <= i < s.len() - 1 implies name_le(
            #[trigger] s.drop_last()[i].name(),
            bound,
        ) by {
            assert(name_le(s[i].name(), bound));
        }
        lemma_named_bounded(s.drop_last(), name, bound);
    }
}

/// In a merged listing the entries of one name are those of the first
/// listing, then those of the second.
proof fn lemma_merge_stable(a: Seq<EntryView>, b: Seq<EntryView>, name: Seq<char>)
    requires
        sorted_by_name(b),
    ensures
        entries_named(merge_by_name(a, b), name) == entries_named(a, name) + entries_named(b, name),
    decreases a.len() + b.len(),
{
    let na = entries_named(a, name);
    let nb = entries_named(b, name);
    if a.len() == 0 {
        assert(na + nb =~= nb);
    } else if b.len() == 0 {
        assert(na + nb =~= na);
    } else {
        lemma_front_ordered(b);
        if name_le(a.last().name(), b.last().name()) {
            let front = merge_by_name(a, b.drop_last());
            lemma_merge_stable(a, b.drop_last(), name);
            assert(front.push(b.last()).drop_last() =~= front);
            let nf = entries_named(b.drop_last(), name);
            assert((na + nf).push(b.last()) =~= na + nf.push(b.last()));
        } else {
            let front = merge_by_name(a.drop_last(), b);
            lemma_merge_stable(a.drop_last(), b, name);
            assert(front.push(a.last()).drop_last() =~= front);
            let nf = entries_named(a.drop_last(), name);
            if a.last().name() == name {
                if nb.len() > 0 {
                    lemma_named_bounded(b, name, b.last().name());
                    assert(false);
                }
                assert((nf + nb).push(a.last()) =~= nf.push(a.last()) + nb);
            }
        }
    }
}

/// The entries of one name in two listings put end to end are those of the
/// first, then those of the second.
proof fn lemma_named_joined(a: Seq<EntryView>, b: Seq<EntryView>, name: Seq<char>)
    ensures
        entries_named(a + b, name) == entries_named(a, name) + entries_named(b, name),
    decreases b.len(),
{
    if b.len() == 0 {
        assert(a + b =~= a);
        assert(entries_named(a, name) + entries_named(b, name) =~= entries_named(a, name));
    } else {
        lemma_named_joined(a, b.drop_last(), name);
        assert((a + b).drop_last() =~= a + b.drop_last());
        let nf = entries_named(b.drop_last(), name);
        assert((entries_named(a, name) + nf).push(b.last()) =~= entries_named(a, name) + nf.push(
            b.last(),
        ));
    }
}

/// An ordered listing is fixed by the entries it holds of each name and their
/// order: two ordered listings that agree in that are the same.
pub proof fn lemma_ordered_stable_unique(a: Seq<EntryView>, b: Seq<EntryView>)
    requires
        sorted_by_name(a),
        sorted_by_name(b),
        forall|name: Seq<char>| #[trigger] entries_named(a, name) == entries_named(b, name),
    ensures
        a == b,
    decreases a.len() + b.len(),
{
    if a.len() == 0 && b.len() == 0 {
        assert(a =~= b);
    } else if a.len() == 0 || b.len() == 0 {
        // The last entry of the one that is not empty has no match.
        let s = if a.len() == 0 { b } else { a };
        let name = s.last().name();
        assert(entries_named(s, name).len() > 0);
        assert(entries_named(a, name) == entries_named(b, name));
        assert(false);
    } else {
        let x = a.last();
        let y = b.last();
        let n = x.name();
        let m = y.name();
        assert(entries_named(a, n) == entries_named(b, n));
        assert(entries_named(a, m) == entries_named(b, m));
        assert(entries_named(a, n).last() == x);
        assert(entries_named(b, m).last() == y);
        if n != m {
            // `x` is in `b` before `y`, and `y` is in `a` before `x`.
            lemma_front_ordered(a);
            lemma_front_ordered(b);
            lemma_named_bounded(b, n, m);
            lemma_named_bounded(a, m, n);
            lemma_name_le_antisymmetric(n, m);
            assert(false);
        }
        assert(x == y);
        lemma_front_ordered(a);
        lemma_front_ordered(b);
        assert forall|name: Seq<char>| #[trigger]
            entries_named(a.drop_last(), name) == entries_named(b.drop_last(), name) by {
            assert(entries_named(a, name) == entries_named(b, name));
            if name == n {
                assert(entries_named(a, name).drop_last() =~= entries_named(a.drop_last(), name));
                assert(entries_named(b, name).drop_last() =~= entries_named(b.drop_last(), name));
            }
        }
        lemma_ordered_stable_unique(a.drop_last(), b.drop_last());
        assert(a =~= a.drop_last().push(x));
        assert(b =~= b.drop_last().push(y));
    }
}

/// Merging the two halves of a listing, each sorted, sorts the listing.
proof fn lemma_merge_sorts(left: Seq<EntryView>, right: Seq<EntryView>)
    ensures
        merge_by_name(sort_by_name(left), sort_by_name(right)) == sort_by_name(left + right),
{
    let merged = merge_by_name(sort_by_name(left), sort_by_name(right));
    let whole = sort_by_name(left + right);
    lemma_sort_orders(left);
    lemma_sort_orders(right);
    lemma_sort_orders(left + right);
    lemma_merge_ordered(sort_by_name(left), sort_by_name(right));
    assert forall|name: Seq<char>| #[trigger] entries_named(merged, name) == entries_named(
        whole,
        name,
    ) by {
        lemma_merge_stable(sort_by_name(left), sort_by_name(right), name);
        lemma_sort_stable(left, name);
        lemma_sort_stable(right, name);
        lemma_named_joined(left, right, name);
        lemma_sort_stable(left + right, name);
    }
    lemma_ordered_stable_unique(merged, whole);
}

/// Two ordered vectors made one ordered vector. Of two entries with equal
/// names the one from `left` comes first.
fn merge_entries(left: Vec<FileEntry>, right: Vec<FileEntry>) -> (out: Vec<FileEntry>)
    ensures
        entry_views(out@) == merge_by_name(entry_views(left@), entry_views(right@)),
{
    let ghost goal = merge_by_name(entry_views(left@), entry_views(right@));
    let mut left = left;
    let mut right = right;
    // The entries taken so far, the last of the result first.
    let mut taken: Vec<FileEntry> = Vec::new();
    while left.len() > 0 && right.len() > 0
        invariant
            goal == merge_by_name(entry_views(left@), entry_views(right@)) + entry_views(
                taken@,
            ).reverse(),
        decreases left.len() + right.len(),
    {
        let ghost a = entry_views(left@);
        let ghost b = entry_views(right@);
        let ghost t = entry_views(taken@);
        if names_in_order(left[left.len() - 1].name(), right[right.len() - 1].name()) {
            let e = right.pop().unwrap();
            taken.push(e);
            proof {
                assert(entry_views(right@) =~= b.drop_last());
                assert(entry_views(taken@) =~= t.push(b.last()));
                assert(merge_by_name(a, b.drop_last()).push(b.last()) + t.reverse()
                    =~= merge_by_name(a, b.drop_last()) + t.push(b.last()).reverse());
            }
        } else {
            let e = left.pop().unwrap();
            taken.push(e);
            proof {
                assert(entry_views(left@) =~= a.drop_last());
                assert(entry_views(taken@) =~= t.push(a.last()));
                assert(merge_by_name(a.drop_last(), b).push(a.last()) + t.reverse()
                    =~= merge_by_name(a.drop_last(), b) + t.push(a.last()).reverse());
            }
        }
    }
    let mut out = if left.len() > 0 { left } else { right };
    while taken.len() > 0
        invariant
            goal == entry_views(out@) + entry_views(taken@).reverse(),
        decreases taken.len(),
    {
        let ghost o = entry_views(out@);
        let ghost t = entry_views(taken@);
        let e = taken.pop().unwrap();
        out.push(e);
        proof {
            assert(entry_views(taken@) =~= t.drop_last());
            assert(entry_views(out@) =~= o.push(t.last()));
            assert(o + t.reverse() =~= o.push(t.last()) + t.drop_last().reverse());
        }
    }
    assert(entry_views(out@) + entry_views(taken@).reverse() =~= entry_views(out@));
    out
}

/// The entries in ascending order of name. Entries with equal names stay in
/// the order in which they were given.
pub fn sort_entries(entries: Vec<FileEntry>) -> (sorted: Vec<FileEntry>)
    ensures
        entry_views(sorted@) == sort_by_name(entry_views(entries@)),
        sorted_by_name(entry_views(sorted@)),
        sorted@.len() == entries@.len(),
    decreases entries@.len(),
{
    let ghost given = entry_views(entries@);
    proof {
        lemma_sort_orders(given);
    }
    if entries.len() <= 1 {
        proof {
            lemma_sort_keeps_ordered(given);
        }
        return entries;
    }
    let mut left = entries;
    let right = left.split_off(left.len() / 2);
    proof {
        assert(entry_views(left@) + entry_views(right@) =~= given);
        lemma_merge_sorts(entry_views(left@), entry_views(right@));
    }
    let left = sort_entries(left);
    let right = sort_entries(right);
    merge_entries(left, right)
}

} // verus!
