//! What holds of every walk, whatever the host tree.

use vstd::prelude::*;
use crate::entry::{
    entry_of_failure, entry_of_reading, is_directory, root_prefix, unknown_kind_message,
    EntryKind, EntryView,
};
use crate::expander::failure_message;
use crate::handle::{kind_of, HandleKind};
use crate::host::{
    expands, listing, listing_above, listing_all, listing_roots, own_entries, prefix_below,
    reach, reach_all, reach_roots, HostNode,
};
use crate::reach::{
    ancestors, entries_along, entries_at, found, found_at, is_above, is_found, node_at,
    node_of, positions, prefix_of, reachable, reached, visit_order, visits, visits_all,
    Position,
};

verus! {

/// The listing of a walk is made of the own entries of the handles that
/// the walk reaches, position by position in the order of the walk, and each
/// handle's entries stand under the prefix of its position: the prefix of the
/// dropped item, then the names of the directories above the handle, each
/// followed by a slash.
pub proof fn law_listing_by_position(roots: Seq<Option<HostNode>>)
    ensures
        listing_roots(roots) == entries_at(roots, visit_order(roots)),
{
    lemma_visit_order(roots);
}

/// A walk visits every handle that it can reach, each of them once, and no
/// other position.
pub proof fn law_each_reached_once(roots: Seq<Option<HostNode>>)
    ensures
        visit_order(roots).no_duplicates(),
        forall|at: Position| visit_order(roots).contains(at) <==> reached(roots, at),
{
    lemma_visit_order(roots);
    assert forall|at: Position| visit_order(roots).contains(at) <==> reached(roots, at) by {
        if reached(roots, at) {
            lemma_visit_order_complete(roots, at);
        }
    }
}

/// The entries of a listing that tell of a file or a directory are, in
/// order, the entries of the reached handles that are files or directories:
/// one for each, of the handle's kind, with its name, under the prefix of
/// its position.
pub proof fn law_found_by_position(roots: Seq<Option<HostNode>>)
    ensures
        found(listing_roots(roots)) == found_at(roots, visit_order(roots)),
{
    lemma_visit_order(roots);
    lemma_found_at(roots, visit_order(roots));
}

/// Where every handle that the walk reaches is a file or a directory, the
/// entries of the listing that tell of a file or a directory stand one for
/// one for the reached handles: there are as many, and each is the entry of
/// the handle at the same place in the order of the walk.
pub proof fn law_complete(roots: Seq<Option<HostNode>>)
    requires
        forall|at: Position| reached(roots, at) ==> is_found(#[trigger] node_of(roots, at)),
    ensures
        found(listing_roots(roots)).len() == visit_order(roots).len(),
        forall|k: int|
            0 <= k < visit_order(roots).len() ==> #[trigger] found(listing_roots(roots))[k]
                == entry_of_reading(
                prefix_of(roots, visit_order(roots)[k]),
                node_of(roots, visit_order(roots)[k]).reading,
            ),
{
    lemma_visit_order(roots);
    lemma_found_at(roots, visit_order(roots));
    lemma_found_at_all(roots, visit_order(roots));
}

/// A walk visits a directory before anything that stands below it.
pub proof fn law_parent_first(roots: Seq<Option<HostNode>>, i: int, j: int)
    requires
        0 <= i < visit_order(roots).len(),
        0 <= j < visit_order(roots).len(),
        is_above(visit_order(roots)[i], visit_order(roots)[j]),
    ensures
        i < j,
    decreases roots.len(),
{
    lemma_visit_order(roots);
    let r = roots.len() - 1;
    let fewer = roots.drop_last();
    let rest = visit_order(fewer);
    let all = visit_order(roots);
    lemma_visit_order(fewer);
    match roots.last() {
        Some(n) => {
            let paths = visits(n, Seq::empty());
            let first = positions(r, paths);
            if i < first.len() {
                assert(all[i] == first[i]);
                if j < first.len() {
                    assert(all[j] == first[j]);
                    lemma_visits_parent_first(n, Seq::empty(), i, j);
                }
            } else {
                assert(all[i] == rest[i - first.len()]);
                assert(reached(fewer, rest[i - first.len()]));
                if j < first.len() {
                    assert(all[j] == first[j]);
                } else {
                    assert(all[j] == rest[j - first.len()]);
                    law_parent_first(fewer, i - first.len(), j - first.len());
                }
            }
        },
        None => {
            law_parent_first(fewer, i, j);
        },
    }
}

/// A walk pops as many units as there are handles for it to reach.
pub proof fn law_pops_count_reached(roots: Seq<Option<HostNode>>)
    ensures
        reach_roots(roots) == visit_order(roots).len(),
{
    lemma_visit_order(roots);
}

/// Every entry of a listing is an own entry of a handle that the walk
/// reaches, and stands under the prefix of that handle's position.
pub proof fn law_entry_prefix(roots: Seq<Option<HostNode>>, i: int)
    requires
        0 <= i < listing_roots(roots).len(),
    ensures
        exists|at: Position|
            {
                &&& #[trigger] reached(roots, at)
                &&& own_entries(node_of(roots, at), prefix_of(roots, at)).contains(
                    listing_roots(roots)[i],
                )
                &&& listing_roots(roots)[i].prefix == prefix_of(roots, at)
            },
{
    lemma_visit_order(roots);
    let order = visit_order(roots);
    let j = lemma_entry_origin(roots, order, i);
    assert(reached(roots, order[j]));
}

/// A handle of a kind that is neither file nor directory gives exactly one
/// entry, an error that names the kind, and the walk reaches nothing below
/// it.
pub proof fn law_unknown_kind(n: HostNode, prefix: Seq<char>)
    requires
        n.reading is Ok,
        kind_of(n.reading->Ok_0.kind@) == HandleKind::Unknown,
    ensures
        listing(n, prefix) == seq![
            (EntryView {
                prefix,
                kind: EntryKind::Error,
                body: unknown_kind_message(n.reading->Ok_0.kind@),
            }),
        ],
        reach(n) == 1,
{
}

/// A directory that cannot be expanded gives its own entry and exactly one
/// error after it, and the walk reaches nothing below it, whatever its
/// cursor yielded before it failed.
pub proof fn law_failed_directory(n: HostNode, prefix: Seq<char>)
    requires
        is_directory(n.reading),
        n.failure is Some,
    ensures
        listing(n, prefix) == seq![
            (EntryView { prefix, kind: EntryKind::Directory, body: n.reading->Ok_0.name@ }),
            entry_of_failure(prefix, n.reading->Ok_0.name@, failure_message(n.failure->Some_0)),
        ],
        reach(n) == 1,
        forall|path: Seq<int>| reachable(n, path) ==> path.len() == 0,
{
    assert forall|path: Seq<int>| reachable(n, path) implies path.len() == 0 by {
        if path.len() > 0 {
            lemma_reachable_prefix(n, path, 1);
            assert(path.take(1).drop_last() =~= Seq::<int>::empty());
        }
    }
}

/// What one of several trees side by side gives to their listing does not
/// depend on the others: the listing is that of the trees after it, then
/// its own, then that of the trees before it.
pub proof fn law_siblings_apart(nodes: Seq<HostNode>, prefix: Seq<char>, k: int)
    requires
        0 <= k < nodes.len(),
    ensures
        listing_all(nodes, prefix) == listing_all(nodes.skip(k + 1), prefix) + listing(
            nodes[k],
            prefix,
        ) + listing_all(nodes.take(k), prefix),
    decreases nodes.len(),
{
    if k == nodes.len() - 1 {
        assert(nodes.skip(k + 1) =~= Seq::<HostNode>::empty());
        assert(nodes.take(k) =~= nodes.drop_last());
        assert(listing_all(nodes.skip(k + 1), prefix) + listing(nodes[k], prefix)
            =~= listing(nodes[k], prefix));
    } else {
        let fewer = nodes.drop_last();
        law_siblings_apart(fewer, prefix, k);
        assert(fewer.take(k) =~= nodes.take(k));
        assert(nodes.skip(k + 1).drop_last() =~= fewer.skip(k + 1));
        assert(nodes.skip(k + 1).last() == nodes.last());
        assert(listing_all(nodes.skip(k + 1), prefix) == listing(nodes.last(), prefix)
            + listing_all(fewer.skip(k + 1), prefix));
        assert(listing(nodes.last(), prefix) + (listing_all(fewer.skip(k + 1), prefix)
            + listing(nodes[k], prefix) + listing_all(nodes.take(k), prefix)) =~= (listing(
            nodes.last(),
            prefix,
        ) + listing_all(fewer.skip(k + 1), prefix)) + listing(nodes[k], prefix) + listing_all(
            nodes.take(k),
            prefix,
        ));
    }
}

/// What one dropped item gives to the listing does not depend on the other
/// items: the listing is that of the items after it, then its own, then that
/// of the items before it, and putting another tree in its place changes
/// neither of the other two.
pub proof fn law_items_apart(roots: Seq<Option<HostNode>>, k: int, other: Option<HostNode>)
    requires
        0 <= k < roots.len(),
    ensures
        listing_roots(roots) == listing_above(roots, k) + match roots[k] {
            Some(n) => listing(n, root_prefix(k as nat)),
            None => Seq::empty(),
        } + listing_roots(roots.take(k)),
        listing_above(roots.update(k, other), k) == listing_above(roots, k),
        roots.update(k, other).take(k) == roots.take(k),
    decreases roots.len(),
{
    let own = match roots[k] {
        Some(n) => listing(n, root_prefix(k as nat)),
        None => Seq::empty(),
    };
    assert(roots.update(k, other).take(k) =~= roots.take(k));
    if k == roots.len() - 1 {
        assert(roots.take(k) =~= roots.drop_last());
        assert(listing_above(roots, k) + own + listing_roots(roots.take(k)) =~= own
            + listing_roots(roots.drop_last()));
    } else {
        let fewer = roots.drop_last();
        law_items_apart(fewer, k, other);
        assert(fewer.take(k) =~= roots.take(k));
        assert(roots.update(k, other).drop_last() =~= fewer.update(k, other));
        let last = match roots.last() {
            Some(n) => listing(n, root_prefix((roots.len() - 1) as nat)),
            None => Seq::empty(),
        };
        assert(listing_above(roots, k) =~= last + listing_above(fewer, k));
        assert(listing_roots(roots) =~= last + listing_roots(fewer));
        assert(last + (listing_above(fewer, k) + own + listing_roots(roots.take(k))) =~= (last
            + listing_above(fewer, k)) + own + listing_roots(roots.take(k)));
    }
}

proof fn lemma_found_concat(a: Seq<EntryView>, b: Seq<EntryView>)
    ensures
        found(a + b) == found(a) + found(b),
    decreases a.len(),
{
    if a.len() == 0 {
        assert(a + b =~= b);
        assert(found(a) + found(b) =~= found(b));
    } else {
        assert((a + b).drop_first() =~= a.drop_first() + b);
        assert((a + b).first() == a.first());
        lemma_found_concat(a.drop_first(), b);
        assert(seq![a.first()] + (found(a.drop_first()) + found(b)) =~= (seq![a.first()] + found(
            a.drop_first(),
        )) + found(b));
    }
}

proof fn lemma_found_own(n: HostNode, prefix: Seq<char>)
    ensures
        found(own_entries(n, prefix)) == if is_found(n) {
            seq![entry_of_reading(prefix, n.reading)]
        } else {
            Seq::<EntryView>::empty()
        },
{
    let head = seq![entry_of_reading(prefix, n.reading)];
    assert(head.drop_first() =~= Seq::<EntryView>::empty());
    assert(found(head.drop_first()) =~= Seq::<EntryView>::empty());
    assert(found(head) =~= if is_found(n) {
        head
    } else {
        Seq::<EntryView>::empty()
    });
    if is_directory(n.reading) && n.failure is Some {
        let tail = seq![
            entry_of_failure(prefix, n.reading->Ok_0.name@, failure_message(n.failure->Some_0)),
        ];
        assert(tail.drop_first() =~= Seq::<EntryView>::empty());
        assert(found(tail.drop_first()) =~= Seq::<EntryView>::empty());
        assert(found(tail) =~= Seq::<EntryView>::empty());
        assert(own_entries(n, prefix) =~= head + tail);
        lemma_found_concat(head, tail);
        assert(found(head) + found(tail) =~= found(head));
    }
}

proof fn lemma_found_at(roots: Seq<Option<HostNode>>, order: Seq<Position>)
    ensures
        found(entries_at(roots, order)) == found_at(roots, order),
    decreases order.len(),
{
    if order.len() > 0 {
        let n = node_of(roots, order.first());
        let p = prefix_of(roots, order.first());
        lemma_found_own(n, p);
        lemma_found_concat(own_entries(n, p), entries_at(roots, order.drop_first()));
        lemma_found_at(roots, order.drop_first());
        assert(Seq::<EntryView>::empty() + found_at(roots, order.drop_first()) =~= found_at(
            roots,
            order.drop_first(),
        ));
    }
}

proof fn lemma_found_at_all(roots: Seq<Option<HostNode>>, order: Seq<Position>)
    requires
        forall|i: int| 0 <= i < order.len() ==> is_found(node_of(roots, #[trigger] order[i])),
    ensures
        found_at(roots, order).len() == order.len(),
        forall|k: int|
            0 <= k < order.len() ==> #[trigger] found_at(roots, order)[k] == entry_of_reading(
                prefix_of(roots, order[k]),
                node_of(roots, order[k]).reading,
            ),
    decreases order.len(),
{
    if order.len() > 0 {
        let rest = order.drop_first();
        assert(is_found(node_of(roots, order[0])));
        assert forall|i: int| 0 <= i < rest.len() implies is_found(
            node_of(roots, #[trigger] rest[i]),
        ) by {
            assert(rest[i] == order[i + 1]);
        }
        lemma_found_at_all(roots, rest);
        assert forall|k: int| 0 <= k < order.len() implies #[trigger] found_at(roots, order)[k]
            == entry_of_reading(prefix_of(roots, order[k]), node_of(roots, order[k]).reading) by {
            if k > 0 {
                assert(found_at(roots, order)[k] == found_at(roots, rest)[k - 1]);
                assert(rest[k - 1] == order[k]);
            }
        }
    }
}

proof fn lemma_entry_origin(roots: Seq<Option<HostNode>>, order: Seq<Position>, i: int) -> (j:
    int)
    requires
        0 <= i < entries_at(roots, order).len(),
    ensures
        0 <= j < order.len(),
        own_entries(node_of(roots, order[j]), prefix_of(roots, order[j])).contains(
            entries_at(roots, order)[i],
        ),
        entries_at(roots, order)[i].prefix == prefix_of(roots, order[j]),
    decreases order.len(),
{
    let own = own_entries(node_of(roots, order.first()), prefix_of(roots, order.first()));
    if i < own.len() {
        assert(entries_at(roots, order)[i] == own[i]);
        0
    } else {
        let j = lemma_entry_origin(roots, order.drop_first(), i - own.len());
        assert(entries_at(roots, order)[i] == entries_at(roots, order.drop_first())[i - own.len()]);
        assert(order.drop_first()[j] == order[j + 1]);
        j + 1
    }
}

proof fn lemma_entries_along_concat(
    root: HostNode,
    prefix: Seq<char>,
    a: Seq<Seq<int>>,
    b: Seq<Seq<int>>,
)
    ensures
        entries_along(root, prefix, a + b) == entries_along(root, prefix, a) + entries_along(
            root,
            prefix,
            b,
        ),
    decreases a.len(),
{
    if a.len() == 0 {
        assert(a + b =~= b);
        assert(entries_along(root, prefix, a) + entries_along(root, prefix, b)
            =~= entries_along(root, prefix, b));
    } else {
        assert((a + b).drop_first() =~= a.drop_first() + b);
        assert((a + b).first() == a.first());
        lemma_entries_along_concat(root, prefix, a.drop_first(), b);
        let head = own_entries(node_at(root, a.first()), prefix + ancestors(root, a.first()));
        assert(head + (entries_along(root, prefix, a.drop_first()) + entries_along(
            root,
            prefix,
            b,
        )) =~= (head + entries_along(root, prefix, a.drop_first())) + entries_along(
            root,
            prefix,
            b,
        ));
    }
}

proof fn lemma_step_down(root: HostNode, here: Seq<int>, k: int)
    requires
        reachable(root, here),
        expands(node_at(root, here)),
        0 <= k < node_at(root, here).children@.len(),
    ensures
        reachable(root, here.push(k)),
        node_at(root, here.push(k)) == node_at(root, here).children@[k],
        ancestors(root, here.push(k)) == ancestors(root, here) + node_at(
            root,
            here,
        ).reading->Ok_0.name@ + "/"@,
{
    assert(here.push(k).drop_last() =~= here);
    assert(here.push(k).last() == k);
}

proof fn lemma_listing_along(root: HostNode, prefix: Seq<char>, n: HostNode, here: Seq<int>)
    requires
        reachable(root, here),
        node_at(root, here) == n,
    ensures
        listing(n, prefix + ancestors(root, here)) == entries_along(
            root,
            prefix,
            visits(n, here),
        ),
    decreases n, 1int, 0int,
{
    let p = prefix + ancestors(root, here);
    assert(entries_along(root, prefix, seq![here]) =~= own_entries(n, p)) by {
        assert(seq![here].first() == here);
        assert(seq![here].drop_first().len() == 0);
        assert(entries_along(root, prefix, seq![here].drop_first()) =~= Seq::<
            EntryView,
        >::empty());
    }
    if expands(n) {
        lemma_listing_all_along(root, prefix, n, here, n.children@.len() as int);
        assert(n.children@.take(n.children@.len() as int) =~= n.children@);
        lemma_entries_along_concat(root, prefix, seq![here], visits_all(n.children@, here));
    }
}

proof fn lemma_listing_all_along(
    root: HostNode,
    prefix: Seq<char>,
    n: HostNode,
    here: Seq<int>,
    k: int,
)
    requires
        reachable(root, here),
        node_at(root, here) == n,
        expands(n),
        0 <= k <= n.children@.len(),
    ensures
        listing_all(n.children@.take(k), prefix_below(n, prefix + ancestors(root, here)))
            == entries_along(root, prefix, visits_all(n.children@.take(k), here)),
    decreases n, 0int, k,
{
    let nodes = n.children@.take(k);
    if k > 0 {
        assert(nodes.drop_last() =~= n.children@.take(k - 1));
        assert(nodes.last() == n.children@[k - 1]);
        lemma_step_down(root, here, k - 1);
        lemma_listing_all_along(root, prefix, n, here, k - 1);
        lemma_listing_along(root, prefix, n.children@[k - 1], here.push(k - 1));
        assert(prefix + ancestors(root, here.push(k - 1)) =~= prefix_below(
            n,
            prefix + ancestors(root, here),
        ));
        lemma_entries_along_concat(
            root,
            prefix,
            visits(nodes.last(), here.push(k - 1)),
            visits_all(nodes.drop_last(), here),
        );
    }
}

/// Whether `path` leads through the end of `here`.
spec fn below(path: Seq<int>, here: Seq<int>) -> bool {
    here.len() <= path.len() && path.take(here.len() as int) == here
}

proof fn lemma_below_child(path: Seq<int>, here: Seq<int>, k: int)
    requires
        below(path, here.push(k)),
    ensures
        below(path, here),
        path.len() > here.len(),
        path[here.len() as int] == k,
{
    let longer = here.push(k);
    assert(path.take(longer.len() as int)[here.len() as int] == longer[here.len() as int]);
    assert forall|j: int| 0 <= j < here.len() implies path.take(here.len() as int)[j]
        == here[j] by {
        assert(path.take(longer.len() as int)[j] == longer[j]);
    }
    assert(path.take(here.len() as int) =~= here);
}

proof fn lemma_visits_shape(n: HostNode, here: Seq<int>)
    ensures
        visits(n, here).len() == reach(n),
        visits(n, here)[0] == here,
        forall|i: int| 0 <= i < visits(n, here).len() ==> below(#[trigger] visits(n, here)[i], here),
        forall|i: int|
            0 < i < visits(n, here).len() ==> (#[trigger] visits(n, here)[i]).len() > here.len(),
    decreases n,
{
    assert(here.take(here.len() as int) =~= here);
    if expands(n) {
        lemma_visits_all_shape(n.children@, here);
    }
}

proof fn lemma_visits_all_shape(nodes: Seq<HostNode>, here: Seq<int>)
    ensures
        visits_all(nodes, here).len() == reach_all(nodes),
        forall|i: int|
            0 <= i < visits_all(nodes, here).len() ==> {
                let path = #[trigger] visits_all(nodes, here)[i];
                &&& below(path, here)
                &&& path.len() > here.len()
                &&& 0 <= path[here.len() as int] < nodes.len()
            },
    decreases nodes,
{
    if nodes.len() > 0 {
        let k = nodes.len() - 1;
        let first = visits(nodes.last(), here.push(k));
        let rest = visits_all(nodes.drop_last(), here);
        lemma_visits_shape(nodes.last(), here.push(k));
        lemma_visits_all_shape(nodes.drop_last(), here);
        assert forall|i: int| 0 <= i < visits_all(nodes, here).len() implies {
            let path = #[trigger] visits_all(nodes, here)[i];
            &&& below(path, here)
            &&& path.len() > here.len()
            &&& 0 <= path[here.len() as int] < nodes.len()
        } by {
            if i < first.len() {
                assert(visits_all(nodes, here)[i] == first[i]);
                lemma_below_child(first[i], here, k);
            } else {
                assert(visits_all(nodes, here)[i] == rest[i - first.len()]);
            }
        }
    }
}

/// Whether `path` leads through the end of `upper` and on.
spec fn under(upper: Seq<int>, path: Seq<int>) -> bool {
    below(path, upper) && upper.len() < path.len()
}

proof fn lemma_under_same_child(upper: Seq<int>, path: Seq<int>, here: Seq<int>)
    requires
        under(upper, path),
        below(upper, here),
        upper.len() > here.len(),
    ensures
        path[here.len() as int] == upper[here.len() as int],
{
    assert(path.take(upper.len() as int)[here.len() as int] == path[here.len() as int]);
}

proof fn lemma_visits_parent_first(n: HostNode, here: Seq<int>, i: int, j: int)
    requires
        0 <= i < visits(n, here).len(),
        0 <= j < visits(n, here).len(),
        under(visits(n, here)[i], visits(n, here)[j]),
    ensures
        i < j,
    decreases n,
{
    lemma_visits_shape(n, here);
    if i > 0 {
        let rest = visits_all(n.children@, here);
        assert(visits(n, here)[i] == rest[i - 1]);
        assert(visits(n, here)[j] == rest[j - 1]);
        lemma_visits_all_parent_first(n.children@, here, i - 1, j - 1);
    }
}

proof fn lemma_visits_all_parent_first(nodes: Seq<HostNode>, here: Seq<int>, i: int, j: int)
    requires
        0 <= i < visits_all(nodes, here).len(),
        0 <= j < visits_all(nodes, here).len(),
        under(visits_all(nodes, here)[i], visits_all(nodes, here)[j]),
    ensures
        i < j,
    decreases nodes,
{
    let k = nodes.len() - 1;
    let all = visits_all(nodes, here);
    let first = visits(nodes.last(), here.push(k));
    let rest = visits_all(nodes.drop_last(), here);
    lemma_visits_shape(nodes.last(), here.push(k));
    lemma_visits_all_shape(nodes.drop_last(), here);
    lemma_visits_all_shape(nodes, here);
    lemma_under_same_child(all[i], all[j], here);
    if i < first.len() {
        assert(all[i] == first[i]);
        lemma_below_child(first[i], here, k);
        if j < first.len() {
            assert(all[j] == first[j]);
            lemma_visits_parent_first(nodes.last(), here.push(k), i, j);
        } else {
            assert(all[j] == rest[j - first.len()]);
        }
    } else {
        assert(all[i] == rest[i - first.len()]);
        if j < first.len() {
            assert(all[j] == first[j]);
            lemma_below_child(first[j], here, k);
        } else {
            assert(all[j] == rest[j - first.len()]);
            lemma_visits_all_parent_first(nodes.drop_last(), here, i - first.len(), j - first.len());
        }
    }
}

proof fn lemma_visits_distinct(n: HostNode, here: Seq<int>)
    ensures
        visits(n, here).no_duplicates(),
    decreases n,
{
    if expands(n) {
        let rest = visits_all(n.children@, here);
        lemma_visits_all_distinct(n.children@, here);
        lemma_visits_all_shape(n.children@, here);
        assert forall|i: int, j: int|
            0 <= i < visits(n, here).len() && 0 <= j < visits(n, here).len() && i != j implies visits(
            n,
            here,
        )[i] != visits(n, here)[j] by {
            if i > 0 {
                assert(visits(n, here)[i] == rest[i - 1]);
            }
            if j > 0 {
                assert(visits(n, here)[j] == rest[j - 1]);
            }
        }
    }
}

proof fn lemma_visits_all_distinct(nodes: Seq<HostNode>, here: Seq<int>)
    ensures
        visits_all(nodes, here).no_duplicates(),
    decreases nodes,
{
    if nodes.len() > 0 {
        let k = nodes.len() - 1;
        let all = visits_all(nodes, here);
        let first = visits(nodes.last(), here.push(k));
        let rest = visits_all(nodes.drop_last(), here);
        lemma_visits_distinct(nodes.last(), here.push(k));
        lemma_visits_all_distinct(nodes.drop_last(), here);
        lemma_visits_shape(nodes.last(), here.push(k));
        lemma_visits_all_shape(nodes.drop_last(), here);
        assert forall|i: int, j: int| 0 <= i < all.len() && 0 <= j < all.len() && i != j implies all[i]
            != all[j] by {
            if i < first.len() {
                assert(all[i] == first[i]);
                lemma_below_child(first[i], here, k);
            } else {
                assert(all[i] == rest[i - first.len()]);
            }
            if j < first.len() {
                assert(all[j] == first[j]);
                lemma_below_child(first[j], here, k);
            } else {
                assert(all[j] == rest[j - first.len()]);
            }
        }
    }
}

proof fn lemma_visits_reachable(root: HostNode, n: HostNode, here: Seq<int>)
    requires
        reachable(root, here),
        node_at(root, here) == n,
    ensures
        forall|i: int|
            0 <= i < visits(n, here).len() ==> reachable(root, #[trigger] visits(n, here)[i]),
    decreases n, 1int, 0int,
{
    if expands(n) {
        let rest = visits_all(n.children@, here);
        lemma_visits_all_reachable(root, n, here, n.children@.len() as int);
        assert(n.children@.take(n.children@.len() as int) =~= n.children@);
        assert forall|i: int| 0 <= i < visits(n, here).len() implies reachable(
            root,
            #[trigger] visits(n, here)[i],
        ) by {
            if i > 0 {
                assert(visits(n, here)[i] == rest[i - 1]);
            }
        }
    }
}

proof fn lemma_visits_all_reachable(root: HostNode, n: HostNode, here: Seq<int>, k: int)
    requires
        reachable(root, here),
        node_at(root, here) == n,
        expands(n),
        0 <= k <= n.children@.len(),
    ensures
        forall|i: int|
            0 <= i < visits_all(n.children@.take(k), here).len() ==> reachable(
                root,
                #[trigger] visits_all(n.children@.take(k), here)[i],
            ),
    decreases n, 0int, k,
{
    let nodes = n.children@.take(k);
    if k > 0 {
        let all = visits_all(nodes, here);
        let first = visits(nodes.last(), here.push(k - 1));
        let rest = visits_all(nodes.drop_last(), here);
        assert(nodes.drop_last() =~= n.children@.take(k - 1));
        assert(nodes.last() == n.children@[k - 1]);
        lemma_step_down(root, here, k - 1);
        lemma_visits_all_reachable(root, n, here, k - 1);
        lemma_visits_reachable(root, n.children@[k - 1], here.push(k - 1));
        assert forall|i: int| 0 <= i < all.len() implies reachable(root, #[trigger] all[i]) by {
            if i < first.len() {
                assert(all[i] == first[i]);
            } else {
                assert(all[i] == rest[i - first.len()]);
            }
        }
    }
}

proof fn lemma_reachable_prefix(root: HostNode, path: Seq<int>, j: int)
    requires
        reachable(root, path),
        0 <= j <= path.len(),
    ensures
        reachable(root, path.take(j)),
    decreases path.len(),
{
    if j == path.len() {
        assert(path.take(j) =~= path);
    } else {
        assert(path.drop_last().take(j) =~= path.take(j));
        lemma_reachable_prefix(root, path.drop_last(), j);
    }
}

proof fn lemma_visits_complete(root: HostNode, n: HostNode, here: Seq<int>, path: Seq<int>)
    requires
        reachable(root, here),
        node_at(root, here) == n,
        reachable(root, path),
        below(path, here),
    ensures
        visits(n, here).contains(path),
    decreases n, 1int, 0int,
{
    if path.len() == here.len() {
        assert(path.take(here.len() as int) =~= path);
        assert(visits(n, here)[0] == path);
    } else {
        let k = path[here.len() as int];
        let step = path.take(here.len() + 1 as int);
        assert(step =~= here.push(k));
        lemma_reachable_prefix(root, path, here.len() + 1 as int);
        assert(step.drop_last() =~= here);
        assert(step.last() == k);
        let rest = visits_all(n.children@, here);
        lemma_visits_all_complete(root, n, here, n.children@.len() as int, path);
        assert(n.children@.take(n.children@.len() as int) =~= n.children@);
        let i = choose|i: int| 0 <= i < rest.len() && rest[i] == path;
        assert(visits(n, here)[i + 1] == rest[i]);
    }
}

proof fn lemma_visits_all_complete(
    root: HostNode,
    n: HostNode,
    here: Seq<int>,
    k: int,
    path: Seq<int>,
)
    requires
        reachable(root, here),
        node_at(root, here) == n,
        expands(n),
        0 <= k <= n.children@.len(),
        reachable(root, path),
        below(path, here),
        path.len() > here.len(),
        0 <= path[here.len() as int] < k,
    ensures
        visits_all(n.children@.take(k), here).contains(path),
    decreases n, 0int, k,
{
    let nodes = n.children@.take(k);
    let all = visits_all(nodes, here);
    let first = visits(nodes.last(), here.push(k - 1));
    let rest = visits_all(nodes.drop_last(), here);
    assert(nodes.drop_last() =~= n.children@.take(k - 1));
    assert(nodes.last() == n.children@[k - 1]);
    if path[here.len() as int] == k - 1 {
        lemma_step_down(root, here, k - 1);
        assert(path.take(here.len() + 1 as int) =~= here.push(k - 1)) by {
            assert(path.take(here.len() as int) == here);
            assert forall|j: int| 0 <= j < here.len() implies path[j] == here[j] by {
                assert(path.take(here.len() as int)[j] == path[j]);
            }
        }
        lemma_visits_complete(root, n.children@[k - 1], here.push(k - 1), path);
        let i = choose|i: int| 0 <= i < first.len() && first[i] == path;
        assert(all[i] == first[i]);
    } else {
        lemma_visits_all_complete(root, n, here, k - 1, path);
        let i = choose|i: int| 0 <= i < rest.len() && rest[i] == path;
        assert(all[first.len() + i] == rest[i]);
    }
}

proof fn lemma_entries_at_concat(roots: Seq<Option<HostNode>>, a: Seq<Position>, b: Seq<Position>)
    ensures
        entries_at(roots, a + b) == entries_at(roots, a) + entries_at(roots, b),
    decreases a.len(),
{
    if a.len() == 0 {
        assert(a + b =~= b);
        assert(entries_at(roots, a) + entries_at(roots, b) =~= entries_at(roots, b));
    } else {
        assert((a + b).drop_first() =~= a.drop_first() + b);
        assert((a + b).first() == a.first());
        lemma_entries_at_concat(roots, a.drop_first(), b);
        let head = own_entries(node_of(roots, a.first()), prefix_of(roots, a.first()));
        assert(head + (entries_at(roots, a.drop_first()) + entries_at(roots, b)) =~= (head
            + entries_at(roots, a.drop_first())) + entries_at(roots, b));
    }
}

proof fn lemma_entries_at_fewer(roots: Seq<Option<HostNode>>, order: Seq<Position>)
    requires
        roots.len() > 0,
        forall|i: int| 0 <= i < order.len() ==> 0 <= (#[trigger] order[i]).root < roots.len() - 1,
    ensures
        entries_at(roots, order) == entries_at(roots.drop_last(), order),
    decreases order.len(),
{
    if order.len() > 0 {
        assert(order[0].root < roots.len() - 1);
        assert(roots.drop_last()[order[0].root] == roots[order[0].root]);
        assert forall|i: int| 0 <= i < order.drop_first().len() implies 0 <= (
        #[trigger] order.drop_first()[i]).root < roots.len() - 1 by {
            assert(order.drop_first()[i] == order[i + 1]);
        }
        lemma_entries_at_fewer(roots, order.drop_first());
    }
}

proof fn lemma_entries_at_item(roots: Seq<Option<HostNode>>, r: int, paths: Seq<Seq<int>>)
    requires
        0 <= r < roots.len(),
        roots[r] is Some,
    ensures
        entries_at(roots, positions(r, paths)) == entries_along(
            roots[r]->Some_0,
            root_prefix(r as nat),
            paths,
        ),
    decreases paths.len(),
{
    if paths.len() > 0 {
        assert(positions(r, paths).drop_first() =~= positions(r, paths.drop_first()));
        lemma_entries_at_item(roots, r, paths.drop_first());
    }
}

proof fn lemma_visit_order(roots: Seq<Option<HostNode>>)
    ensures
        visit_order(roots).len() == reach_roots(roots),
        visit_order(roots).no_duplicates(),
        forall|i: int|
            0 <= i < visit_order(roots).len() ==> reached(roots, #[trigger] visit_order(roots)[i]),
        listing_roots(roots) == entries_at(roots, visit_order(roots)),
    decreases roots.len(),
{
    if roots.len() > 0 {
        let r = roots.len() - 1;
        let fewer = roots.drop_last();
        let rest = visit_order(fewer);
        let all = visit_order(roots);
        lemma_visit_order(fewer);
        assert forall|i: int| 0 <= i < rest.len() implies reached(roots, #[trigger] rest[i]) && 0
            <= rest[i].root < r by {
            assert(reached(fewer, rest[i]));
            assert(fewer[rest[i].root] == roots[rest[i].root]);
        }
        lemma_entries_at_fewer(roots, rest);
        match roots.last() {
            Some(n) => {
                let here = Seq::<int>::empty();
                let paths = visits(n, here);
                let first = positions(r, paths);
                lemma_visits_shape(n, here);
                lemma_visits_distinct(n, here);
                lemma_visits_reachable(n, n, here);
                assert forall|i: int| 0 <= i < all.len() implies reached(roots, #[trigger] all[i]) by {
                    if i < first.len() {
                        assert(all[i] == first[i]);
                        assert(first[i].path == paths[i]);
                    } else {
                        assert(all[i] == rest[i - first.len()]);
                    }
                }
                assert forall|i: int, j: int|
                    0 <= i < all.len() && 0 <= j < all.len() && i != j implies all[i] != all[j] by {
                    if i < first.len() {
                        assert(all[i] == first[i]);
                        assert(first[i].path == paths[i]);
                    } else {
                        assert(all[i] == rest[i - first.len()]);
                    }
                    if j < first.len() {
                        assert(all[j] == first[j]);
                        assert(first[j].path == paths[j]);
                    } else {
                        assert(all[j] == rest[j - first.len()]);
                    }
                }
                lemma_entries_at_concat(roots, first, rest);
                lemma_entries_at_item(roots, r, paths);
                lemma_listing_along(n, root_prefix(r as nat), n, here);
                assert(root_prefix(r as nat) + ancestors(n, here) =~= root_prefix(r as nat));
            },
            None => {},
        }
    }
}

proof fn lemma_visit_order_complete(roots: Seq<Option<HostNode>>, at: Position)
    requires
        reached(roots, at),
    ensures
        visit_order(roots).contains(at),
    decreases roots.len(),
{
    let r = roots.len() - 1;
    let fewer = roots.drop_last();
    let rest = visit_order(fewer);
    let all = visit_order(roots);
    if at.root == r {
        let n = roots.last()->Some_0;
        let here = Seq::<int>::empty();
        let paths = visits(n, here);
        let first = positions(r, paths);
        assert(at.path.take(0) =~= here);
        lemma_visits_complete(n, n, here, at.path);
        let i = choose|i: int| 0 <= i < paths.len() && paths[i] == at.path;
        assert(first[i] == at);
        assert(all[i] == first[i]);
    } else {
        assert(fewer[at.root] == roots[at.root]);
        lemma_visit_order_complete(fewer, at);
        let i = choose|i: int| 0 <= i < rest.len() && rest[i] == at;
        match roots.last() {
            Some(n) => {
                let first = positions(r, visits(n, Seq::empty()));
                assert(all[first.len() + i] == rest[i]);
            },
            None => {},
        }
    }
}

} // verus!
