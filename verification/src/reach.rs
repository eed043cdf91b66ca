//! Positions in a host tree: which handles a walk reaches, under which
//! prefix, and in which order.
//!
//! A position is the path from a dropped item down to a handle: the index
//! of a child among its parent's children, for every step of the way.

use vstd::prelude::*;
use crate::entry::{entry_of_reading, root_prefix, EntryKind, EntryView};
use crate::handle::{kind_of, HandleKind};
use crate::host::{expands, own_entries, HostNode};

verus! {

/// The node at the end of `path` in the tree `root`.
pub open spec fn node_at(root: HostNode, path: Seq<int>) -> HostNode
    decreases path.len(),
{
    if path.len() == 0 {
        root
    } else {
        node_at(root, path.drop_last()).children@[path.last()]
    }
}

/// Whether the walk of the tree `root` reaches the end of `path`: every
/// node on the way is a directory that expands, and every step picks one of
/// its children.
pub open spec fn reachable(root: HostNode, path: Seq<int>) -> bool
    decreases path.len(),
{
    path.len() == 0 || {
        let parent = node_at(root, path.drop_last());
        &&& reachable(root, path.drop_last())
        &&& expands(parent)
        &&& 0 <= path.last() < parent.children@.len()
    }
}

/// The names of the directories on `path` in the tree `root`, from `root`
/// itself down to the parent of the path's end, each followed by a slash.
pub open spec fn ancestors(root: HostNode, path: Seq<int>) -> Seq<char>
    decreases path.len(),
{
    if path.len() == 0 {
        Seq::empty()
    } else {
        ancestors(root, path.drop_last()) + node_at(root, path.drop_last()).reading->Ok_0.name@
            + "/"@
    }
}

/// The paths of the handles that the walk reaches in the tree `n`, which
/// itself stands at the end of `here`, in the order of the walk: `n`, then
/// what stands below its children, the last child first.
pub open spec fn visits(n: HostNode, here: Seq<int>) -> Seq<Seq<int>>
    decreases n,
{
    if expands(n) {
        seq![here] + visits_all(n.children@, here)
    } else {
        seq![here]
    }
}

/// The paths of the handles that the walk reaches in the trees `nodes`, the
/// first children of the node at the end of `here`, the last tree first.
pub open spec fn visits_all(nodes: Seq<HostNode>, here: Seq<int>) -> Seq<Seq<int>>
    decreases nodes,
{
    if nodes.len() == 0 {
        Seq::empty()
    } else {
        visits(nodes.last(), here.push(nodes.len() - 1)) + visits_all(nodes.drop_last(), here)
    }
}

/// The entries of the handles at the ends of `paths` in the tree `root`,
/// which stands under `prefix`: for each path in turn, the handle's own
/// entries, under `prefix` and the names of the directories on the path.
pub open spec fn entries_along(root: HostNode, prefix: Seq<char>, paths: Seq<Seq<int>>) -> Seq<
    EntryView,
>
    decreases paths.len(),
{
    if paths.len() == 0 {
        Seq::empty()
    } else {
        own_entries(node_at(root, paths.first()), prefix + ancestors(root, paths.first()))
            + entries_along(root, prefix, paths.drop_first())
    }
}

/// Where a handle stands in what was dropped: the index of the dropped
/// item, and the path from the item's own handle down.
pub struct Position {
    pub root: int,
    pub path: Seq<int>,
}

/// Whether the walk of `roots` reaches the position `at`: a handle was
/// fetched for the item, and the walk of its tree reaches the path's end.
pub open spec fn reached(roots: Seq<Option<HostNode>>, at: Position) -> bool {
    &&& 0 <= at.root < roots.len()
    &&& roots[at.root] is Some
    &&& reachable(roots[at.root]->Some_0, at.path)
}

/// The node at the position `at`.
pub open spec fn node_of(roots: Seq<Option<HostNode>>, at: Position) -> HostNode {
    node_at(roots[at.root]->Some_0, at.path)
}

/// The prefix of the position `at`: the prefix of the dropped item, then
/// the names of the directories on the path, each followed by a slash.
pub open spec fn prefix_of(roots: Seq<Option<HostNode>>, at: Position) -> Seq<char> {
    root_prefix(at.root as nat) + ancestors(roots[at.root]->Some_0, at.path)
}

/// Whether the position `a` holds a directory above the position `b`: both
/// stand below the same dropped item, and the path of `b` leads through the
/// end of the path of `a` and on.
pub open spec fn is_above(a: Position, b: Position) -> bool {
    &&& a.root == b.root
    &&& a.path.len() < b.path.len()
    &&& b.path.take(a.path.len() as int) == a.path
}

/// The paths `paths` as positions below the dropped item number `root`.
pub open spec fn positions(root: int, paths: Seq<Seq<int>>) -> Seq<Position> {
    paths.map_values(|path: Seq<int>| Position { root, path })
}

/// The positions of the handles that the walk of `roots` reaches, in the
/// order of the walk: item by item, the last item first.
pub open spec fn visit_order(roots: Seq<Option<HostNode>>) -> Seq<Position>
    decreases roots.len(),
{
    if roots.len() == 0 {
        Seq::empty()
    } else {
        let rest = visit_order(roots.drop_last());
        match roots.last() {
            Some(n) => positions(roots.len() - 1, visits(n, Seq::empty())) + rest,
            None => rest,
        }
    }
}

/// The entries of the handles at the positions `order`: for each position
/// in turn, the handle's own entries under the position's prefix.
pub open spec fn entries_at(roots: Seq<Option<HostNode>>, order: Seq<Position>) -> Seq<EntryView>
    decreases order.len(),
{
    if order.len() == 0 {
        Seq::empty()
    } else {
        own_entries(node_of(roots, order.first()), prefix_of(roots, order.first())) + entries_at(
            roots,
            order.drop_first(),
        )
    }
}

/// Whether the host tells of `n` as a file or as a directory.
pub open spec fn is_found(n: HostNode) -> bool {
    n.reading is Ok && kind_of(n.reading->Ok_0.kind@) != HandleKind::Unknown
}

/// The entries of `entries` that tell of a file or a directory, in their
/// order.
pub open spec fn found(entries: Seq<EntryView>) -> Seq<EntryView>
    decreases entries.len(),
{
    if entries.len() == 0 {
        Seq::empty()
    } else if entries.first().kind != EntryKind::Error {
        seq![entries.first()] + found(entries.drop_first())
    } else {
        found(entries.drop_first())
    }
}

/// For each position of `order` that holds a file or a directory, in turn:
/// the entry of that kind, with the handle's name, under the position's
/// prefix.
pub open spec fn found_at(roots: Seq<Option<HostNode>>, order: Seq<Position>) -> Seq<EntryView>
    decreases order.len(),
{
    if order.len() == 0 {
        Seq::empty()
    } else if is_found(node_of(roots, order.first())) {
        seq![
            entry_of_reading(
                prefix_of(roots, order.first()),
                node_of(roots, order.first()).reading,
            ),
        ] + found_at(roots, order.drop_first())
    } else {
        found_at(roots, order.drop_first())
    }
}

} // verus!
