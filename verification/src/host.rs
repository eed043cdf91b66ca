//! A host tree held in memory, and the walk over it from start to end.
//!
//! A `HostNode` records what the host would answer for one handle: what
//! reading it gives, and what its cursor yields. Walking such a tree asks
//! the walker and the expander for every decision, event by event, as a
//! caller with a live host does.

use vstd::prelude::*;
use crate::entry::{
    child_prefix, entries_view, entry_of_failure, entry_of_reading, is_directory, root_prefix,
    Entry, EntryView,
};
use crate::expander::{failure_message, CursorStep, ExpandFailure, Expansion, Progress};
use crate::handle::HandleInfo;
use crate::walker::{
    advance, seeded, with_children, Event, Phase, Request, UnitView, Walker, WalkerView,
};

verus! {

/// What the host answers for one handle.
#[derive(Debug, PartialEq, Eq)]
pub struct HostNode {
    /// What reading the handle's name and kind gives.
    pub reading: Result<HandleInfo, String>,
    /// What the handle's cursor yields, in its order. Only read where the
    /// handle is a directory.
    pub children: Vec<HostNode>,
    /// How expanding the handle fails, if it does. A failure that comes with
    /// the cursor open comes after the children.
    pub failure: Option<ExpandFailure>,
}

/// Whether the walk gets to see the children of `n`: it is a directory, and
/// expanding it does not fail.
pub open spec fn expands(n: HostNode) -> bool {
    is_directory(n.reading) && n.failure is None
}

/// The prefix of the children of `n`, which itself stands under `prefix`.
pub open spec fn prefix_below(n: HostNode, prefix: Seq<char>) -> Seq<char> {
    child_prefix(prefix, n.reading->Ok_0.name@)
}

/// The entries that the handle `n` under `prefix` gives rise to by itself:
/// the entry of its reading and, for a directory that cannot be expanded,
/// one error after it.
pub open spec fn own_entries(n: HostNode, prefix: Seq<char>) -> Seq<EntryView> {
    if is_directory(n.reading) && n.failure is Some {
        seq![
            entry_of_reading(prefix, n.reading),
            entry_of_failure(prefix, n.reading->Ok_0.name@, failure_message(n.failure->Some_0)),
        ]
    } else {
        seq![entry_of_reading(prefix, n.reading)]
    }
}

/// The listing of the tree `n` that stands under `prefix`: the entries of
/// `n` itself, then the listings of its children, the last child first.
pub open spec fn listing(n: HostNode, prefix: Seq<char>) -> Seq<EntryView>
    decreases n,
{
    if expands(n) {
        own_entries(n, prefix) + listing_all(n.children@, prefix_below(n, prefix))
    } else {
        own_entries(n, prefix)
    }
}

/// The listings of the trees `nodes`, all under `prefix`, the last tree
/// first.
pub open spec fn listing_all(nodes: Seq<HostNode>, prefix: Seq<char>) -> Seq<EntryView>
    decreases nodes,
{
    if nodes.len() == 0 {
        Seq::empty()
    } else {
        listing(nodes.last(), prefix) + listing_all(nodes.drop_last(), prefix)
    }
}

/// The listing of what was dropped: the listing of each item whose handle
/// could be fetched, under the prefix of the item's index, the last item
/// first.
pub open spec fn listing_roots(roots: Seq<Option<HostNode>>) -> Seq<EntryView>
    decreases roots.len(),
{
    if roots.len() == 0 {
        Seq::empty()
    } else {
        let rest = listing_roots(roots.drop_last());
        match roots.last() {
            Some(n) => listing(n, root_prefix((roots.len() - 1) as nat)) + rest,
            None => rest,
        }
    }
}

/// The listing of the dropped items that come after item number `k`, the
/// last item first.
pub open spec fn listing_above(roots: Seq<Option<HostNode>>, k: int) -> Seq<EntryView>
    decreases roots.len(),
{
    if roots.len() == 0 || roots.len() <= k + 1 {
        Seq::empty()
    } else {
        let rest = listing_above(roots.drop_last(), k);
        match roots.last() {
            Some(n) => listing(n, root_prefix((roots.len() - 1) as nat)) + rest,
            None => rest,
        }
    }
}

/// How many handles the walk reaches in the tree `n`: `n` and all that
/// stands below it, as far as directories expand.
pub open spec fn reach(n: HostNode) -> nat
    decreases n,
{
    if expands(n) {
        1 + reach_all(n.children@)
    } else {
        1
    }
}

/// How many handles the walk reaches in the trees `nodes`.
pub open spec fn reach_all(nodes: Seq<HostNode>) -> nat
    decreases nodes,
{
    if nodes.len() == 0 {
        0
    } else {
        reach(nodes.last()) + reach_all(nodes.drop_last())
    }
}

/// How many handles the walk reaches in what was dropped.
pub open spec fn reach_roots(roots: Seq<Option<HostNode>>) -> nat
    decreases roots.len(),
{
    if roots.len() == 0 {
        0
    } else {
        let rest = reach_roots(roots.drop_last());
        match roots.last() {
            Some(n) => reach(n) + rest,
            None => rest,
        }
    }
}

/// The nodes `nodes` as the handles that stand for them.
pub open spec fn refs<'a>(nodes: Seq<HostNode>) -> Seq<&'a HostNode> {
    nodes.map_values(|n: HostNode| &n)
}

/// The dropped items `roots` as the handles that were fetched for them.
pub open spec fn root_refs<'a>(roots: Seq<Option<HostNode>>) -> Seq<Option<&'a HostNode>> {
    roots.map_values(
        |r: Option<HostNode>|
            match r {
                Some(n) => Some(&n),
                None => None,
            },
    )
}

/// The listing that the units of `stack` still have to give, the top of the
/// stack first.
pub open spec fn pending(stack: Seq<UnitView<&HostNode>>) -> Seq<EntryView>
    decreases stack.len(),
{
    if stack.len() == 0 {
        Seq::empty()
    } else {
        listing(*stack.last().handle, stack.last().prefix) + pending(stack.drop_last())
    }
}

/// How many handles the walk still reaches from the units of `stack`.
pub open spec fn reach_stack(stack: Seq<UnitView<&HostNode>>) -> nat
    decreases stack.len(),
{
    if stack.len() == 0 {
        0
    } else {
        reach(*stack.last().handle) + reach_stack(stack.drop_last())
    }
}

proof fn lemma_pending_children(
    stack: Seq<UnitView<&HostNode>>,
    children: Seq<HostNode>,
    prefix: Seq<char>,
)
    ensures
        pending(with_children(stack, refs(children), prefix)) == listing_all(children, prefix)
            + pending(stack),
        reach_stack(with_children(stack, refs(children), prefix)) == reach_all(children)
            + reach_stack(stack),
    decreases children.len(),
{
    let all = with_children(stack, refs(children), prefix);
    if children.len() == 0 {
        assert(all =~= stack);
        assert(listing_all(children, prefix) + pending(stack) =~= pending(stack));
    } else {
        let fewer = with_children(stack, refs(children.drop_last()), prefix);
        assert(all.drop_last() =~= fewer);
        assert(*all.last().handle == children.last());
        assert(all.last().prefix == prefix);
        lemma_pending_children(stack, children.drop_last(), prefix);
        assert(pending(all) == listing(children.last(), prefix) + pending(fewer));
        assert(listing(children.last(), prefix) + (listing_all(children.drop_last(), prefix)
            + pending(stack)) =~= (listing(children.last(), prefix) + listing_all(
            children.drop_last(),
            prefix,
        )) + pending(stack));
    }
}

proof fn lemma_pending_seeded(roots: Seq<Option<HostNode>>)
    ensures
        pending(seeded(root_refs(roots))) == listing_roots(roots),
        reach_stack(seeded(root_refs(roots))) == reach_roots(roots),
    decreases roots.len(),
{
    if roots.len() > 0 {
        assert(root_refs(roots).drop_last() =~= root_refs(roots.drop_last()));
        lemma_pending_seeded(roots.drop_last());
        let fewer = seeded(root_refs(roots.drop_last()));
        match roots.last() {
            Some(n) => {
                let unit = UnitView::<&HostNode> {
                    handle: &n,
                    prefix: root_prefix((roots.len() - 1) as nat),
                };
                assert(seeded(root_refs(roots)) == fewer.push(unit));
                assert(fewer.push(unit).drop_last() =~= fewer);
            },
            None => {},
        }
    }
}

/// What the directory `n` under `prefix` still has to give once its own
/// entry is out: one error where it cannot be expanded, and else the
/// listings of its children.
pub open spec fn listing_below(n: HostNode, prefix: Seq<char>) -> Seq<EntryView> {
    if n.failure is Some {
        seq![entry_of_failure(prefix, n.reading->Ok_0.name@, failure_message(n.failure->Some_0))]
    } else {
        listing_all(n.children@, prefix_below(n, prefix))
    }
}

/// What a walk still has to give: what is left of the unit at work, then
/// the listing of the stack.
pub open spec fn outstanding(w: WalkerView<&HostNode>) -> Seq<EntryView> {
    match w.phase {
        Phase::Reading(unit) => listing(*unit.handle, unit.prefix) + pending(w.stack),
        Phase::Listing(unit, _) => listing_below(*unit.handle, unit.prefix) + pending(w.stack),
        Phase::Finished => pending(w.stack),
    }
}

/// How many handles a walk still has to read.
pub open spec fn unread(w: WalkerView<&HostNode>) -> nat {
    match w.phase {
        Phase::Reading(unit) => reach(*unit.handle) + reach_stack(w.stack),
        Phase::Listing(unit, _) => if unit.handle.failure is Some {
            reach_stack(w.stack)
        } else {
            reach_all(unit.handle.children@) + reach_stack(w.stack)
        },
        Phase::Finished => reach_stack(w.stack),
    }
}

/// Whether the walk knows the directory at work by the name that the host
/// gives it.
pub open spec fn listing_in_step(w: WalkerView<&HostNode>) -> bool {
    w.phase matches Phase::Listing(unit, name) ==> is_directory(unit.handle.reading) && name
        == unit.handle.reading->Ok_0.name@
}

proof fn lemma_advance(stack: Seq<UnitView<&HostNode>>, pops: nat)
    ensures
        outstanding(advance(stack, pops)) == pending(stack),
        unread(advance(stack, pops)) == reach_stack(stack),
        !(advance(stack, pops).phase is Listing),
{
}

/// A second value of what was read.
fn copy_reading(reading: &Result<HandleInfo, String>) -> (c: Result<HandleInfo, String>)
    ensures
        c == *reading,
{
    match reading {
        Ok(info) => Ok(HandleInfo { name: info.name.clone(), kind: info.kind.clone() }),
        Err(reason) => Err(reason.clone()),
    }
}

/// Expands `node` as a caller with a live host does: opens the cursor, hands
/// every child to the expansion, and then the cursor's end or its failure.
pub fn enumerate<'a>(node: &'a HostNode) -> (r: Result<Vec<&'a HostNode>, String>)
    ensures
        match node.failure {
            None => r is Ok && r->Ok_0@ == refs(node.children@),
            Some(f) => r is Err && r->Err_0@ == failure_message(f),
        },
{
    let opened: Option<ExpandFailure> = match &node.failure {
        Some(f) => if f.cursor_opened() {
            None
        } else {
            Some(f.duplicate())
        },
        None => None,
    };
    let mut progress: Progress<&'a HostNode> = Expansion::begin(opened);
    let mut i: usize = 0;
    assert(refs(node.children@.take(0)) =~= Seq::<&HostNode>::empty());
    loop
        invariant
            i <= node.children.len(),
            match progress {
                Progress::Pending(expansion) => {
                    &&& expansion@ == refs(node.children@.take(i as int))
                    &&& node.failure is Some ==> node.failure->Some_0.cursor_opened()
                },
                Progress::Complete(r) => match node.failure {
                    None => r is Ok && r->Ok_0@ == refs(node.children@),
                    Some(f) => r is Err && r->Err_0@ == failure_message(f),
                },
            },
        decreases
                node.children.len() - i + if progress is Pending {
                    1nat
                } else {
                    0nat
                },
    {
        match progress {
            Progress::Complete(r) => {
                return r;
            },
            Progress::Pending(expansion) => {
                if i < node.children.len() {
                    let child: &'a HostNode = &node.children[i];
                    progress = expansion.feed(CursorStep::Item(child));
                    assert(node.children@.take(i + 1) =~= node.children@.take(i as int).push(
                        *child,
                    ));
                    assert(refs(node.children@.take(i + 1)) =~= refs(
                        node.children@.take(i as int),
                    ).push(child));
                    i = i + 1;
                } else {
                    assert(node.children@.take(i as int) =~= node.children@);
                    let end: CursorStep<&'a HostNode> = match &node.failure {
                        Some(f) => CursorStep::Failed(f.duplicate()),
                        None => CursorStep::Done,
                    };
                    progress = expansion.feed(end);
                }
            },
        }
    }
}

/// The handles of the dropped items `roots`.
fn root_handles<'a>(roots: &'a Vec<Option<HostNode>>) -> (handles: Vec<Option<&'a HostNode>>)
    ensures
        handles@ == root_refs(roots@),
{
    let mut handles: Vec<Option<&'a HostNode>> = Vec::new();
    let mut i: usize = 0;
    while i < roots.len()
        invariant
            i <= roots.len(),
            handles@ == root_refs(roots@.take(i as int)),
        decreases roots.len() - i,
    {
        handles.push(roots[i].as_ref());
        assert(handles@ =~= root_refs(roots@.take(i + 1)));
        i = i + 1;
    }
    assert(roots@.take(i as int) =~= roots@);
    handles
}

/// What a walk gave.
pub struct Walked<'a> {
    /// The entries in the order they were emitted.
    pub entries: Vec<Entry>,
    /// How many units were popped off the stack.
    pub pops: usize,
    /// The walker as the walk left it.
    pub end: Walker<&'a HostNode>,
}

/// Walks everything that was dropped. `roots` holds, for each dropped item
/// in order, the tree that its handle stands for, or `None` where no handle
/// could be fetched.
///
/// The walk emits exactly the listing of `roots`, pops one unit for each
/// handle that it reaches and no other, and ends with an empty stack.
pub fn walk<'a>(roots: &'a Vec<Option<HostNode>>) -> (r: Walked<'a>)
    ensures
        entries_view(r.entries@) == listing_roots(roots@),
        r.pops == reach_roots(roots@),
        r.end@.phase is Finished,
        r.end@.stack.len() == 0,
        r.end@.pops == r.pops,
{
    let mut walker = Walker::seed(root_handles(roots));
    let mut entries: Vec<Entry> = Vec::new();
    let mut pops: usize = 0;
    proof {
        lemma_pending_seeded(roots@);
        lemma_advance(seeded(root_refs(roots@)), 0);
        assert(entries_view(entries@) + outstanding(walker@) =~= listing_roots(roots@));
    }
    loop
        invariant
            listing_in_step(walker@),
            entries_view(entries@) + outstanding(walker@) == listing_roots(roots@),
            pops + unread(walker@) == reach_roots(roots@),
            pops <= entries.len(),
            walker@.pops == pops + if walker@.phase is Reading {
                1nat
            } else {
                0nat
            },
        ensures
            entries_view(entries@) == listing_roots(roots@),
            pops == reach_roots(roots@),
            walker@.phase is Finished,
            walker@.stack.len() == 0,
            walker@.pops == pops,
        decreases
                unread(walker@),
                if walker@.phase is Listing {
                    1nat
                } else {
                    0nat
                },
    {
        let ghost before = walker@;
        let ghost emitted = entries_view(entries@);
        let node: &'a HostNode = match walker.handle() {
            Some(h) => *h,
            None => {
                assert(emitted + outstanding(before) =~= emitted);
                break ;
            },
        };
        let reads = match walker.request() {
            Request::List => false,
            _ => true,
        };
        let event: Event<&'a HostNode> = if reads {
            Event::Read(copy_reading(&node.reading))
        } else {
            Event::Listed(enumerate(node))
        };
        let (next, entry) = walker.step(event);
        match entry {
            Some(e) => {
                entries.push(e);
                assert(entries_view(entries@) =~= emitted.push(e@));
            },
            None => {},
        }
        if reads {
            assert(pops < entries.len());
            pops = pops + 1;
        }
        proof {
            match before.phase {
                Phase::Reading(unit) => {
                    if !is_directory(node.reading) {
                        lemma_advance(before.stack, before.pops);
                    }
                },
                Phase::Listing(unit, name) => {
                    if node.failure is None {
                        let below = prefix_below(*node, unit.prefix);
                        lemma_pending_children(before.stack, node.children@, below);
                        lemma_advance(
                            with_children(before.stack, refs(node.children@), below),
                            before.pops,
                        );
                    } else {
                        lemma_advance(before.stack, before.pops);
                    }
                },
                Phase::Finished => {},
            }
            assert(entries_view(entries@) + outstanding(next@) =~= emitted + outstanding(
                before,
            ));
        }
        walker = next;
    }
    Walked { entries, pops, end: walker }
}

} // verus!
