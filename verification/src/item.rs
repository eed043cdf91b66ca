//! Dropped items: keeping the files among them, choosing how to list them,
//! and the lines of the plain file listing.

use vstd::prelude::*;
use crate::text::{decimal, push_decimal};

verus! {

/// What the host tells of one dropped item.
#[derive(Debug, PartialEq, Eq)]
pub struct DropItem {
    /// The item's kind tag. Only `file` items are listed.
    pub kind: String,
    /// Whether the item can hand out a handle, and not only a plain file.
    pub offers_handle: bool,
}

/// A dropped item that is a file or a directory.
#[derive(Clone, Copy, Debug, PartialEq, Eq, Structural)]
pub struct FileItem {
    /// Where the item stands in the collection of the host.
    pub slot: usize,
    pub offers_handle: bool,
}

/// Whether the slot holds an item, and one of kind `file`.
pub open spec fn holds_file(slot: Option<DropItem>) -> bool {
    slot is Some && slot->Some_0.kind@ == "file"@
}

/// The items of kind `file` among `slots`, in the order of the slots. An
/// empty slot gives nothing, and neither does an item of another kind.
pub open spec fn normalized(slots: Seq<Option<DropItem>>) -> Seq<FileItem>
    decreases slots.len(),
{
    if slots.len() == 0 {
        Seq::empty()
    } else {
        let rest = normalized(slots.drop_last());
        if holds_file(slots.last()) {
            rest.push(
                FileItem {
                    slot: (slots.len() - 1) as usize,
                    offers_handle: slots.last()->Some_0.offers_handle,
                },
            )
        } else {
            rest
        }
    }
}

/// Keeps the items of kind `file`, in their order. `slots` holds the
/// collection of the host, slot by slot, with `None` where the host had no
/// item to give.
pub fn normalize(slots: &Vec<Option<DropItem>>) -> (items: Vec<FileItem>)
    ensures
        items@ == normalized(slots@),
{
    let mut items: Vec<FileItem> = Vec::new();
    let mut i: usize = 0;
    while i < slots.len()
        invariant
            i <= slots.len(),
            items@ == normalized(slots@.take(i as int)),
        decreases slots.len() - i,
    {
        assert(slots@.take(i + 1).drop_last() =~= slots@.take(i as int));
        match &slots[i] {
            Some(item) => {
                if item.kind == String::from_str("file") {
                    items.push(FileItem { slot: i, offers_handle: item.offers_handle });
                }
            },
            None => {},
        }
        i = i + 1;
    }
    assert(slots@.take(i as int) =~= slots@);
    items
}

/// The kept items stand for exactly the slots that hold a `file` item, each
/// slot once and in rising order, and tell of each what the slot's item
/// offers.
pub proof fn law_normalized(slots: Seq<Option<DropItem>>)
    requires
        slots.len() <= usize::MAX,
    ensures
        forall|j: int|
            0 <= j < normalized(slots).len() ==> {
                let item = #[trigger] normalized(slots)[j];
                &&& 0 <= item.slot < slots.len()
                &&& holds_file(slots[item.slot as int])
                &&& item.offers_handle == slots[item.slot as int]->Some_0.offers_handle
            },
        forall|j: int, k: int|
            0 <= j < k < normalized(slots).len() ==> normalized(slots)[j].slot < normalized(
                slots,
            )[k].slot,
        forall|i: int|
            0 <= i < slots.len() && holds_file(#[trigger] slots[i]) ==> exists|j: int|
                0 <= j < normalized(slots).len() && #[trigger] normalized(slots)[j].slot == i,
    decreases slots.len(),
{
    if slots.len() > 0 {
        let fewer = slots.drop_last();
        let rest = normalized(fewer);
        law_normalized(fewer);
        assert forall|i: int| 0 <= i < slots.len() && holds_file(#[trigger] slots[i]) implies exists|
            j: int,
        | 0 <= j < normalized(slots).len() && #[trigger] normalized(slots)[j].slot == i by {
            if i < slots.len() - 1 {
                assert(holds_file(fewer[i]));
                let j = choose|j: int| 0 <= j < rest.len() && #[trigger] rest[j].slot == i;
                assert(normalized(slots)[j].slot == i);
            } else {
                assert(normalized(slots)[rest.len() as int].slot == i);
            }
        }
    }
}

/// How what was dropped is listed.
#[derive(Clone, Copy, Debug, PartialEq, Eq, Structural)]
pub enum Strategy {
    /// Nothing was dropped that could be listed.
    Nothing,
    /// By handles: directories are walked.
    Handles,
    /// By plain files: one line for each item, and no directory is walked.
    Files,
}

/// The strategy for the items `items`: what the first item offers decides
/// for all of them.
pub open spec fn strategy_for(items: Seq<FileItem>) -> Strategy {
    if items.len() == 0 {
        Strategy::Nothing
    } else if items[0].offers_handle {
        Strategy::Handles
    } else {
        Strategy::Files
    }
}

/// Chooses how to list the items `items`.
pub fn choose_strategy(items: &Vec<FileItem>) -> (s: Strategy)
    ensures
        s == strategy_for(items@),
{
    if items.len() == 0 {
        Strategy::Nothing
    } else if items[0].offers_handle {
        Strategy::Handles
    } else {
        Strategy::Files
    }
}

/// One step of fetching the handles of the dropped items.
#[derive(Clone, Copy, Debug, PartialEq, Eq, Structural)]
pub enum FetchStep {
    /// Ask the item in the given slot for its handle, and do not wait.
    Request(usize),
    /// Wait for all the handles that were asked for.
    AwaitAll,
}

/// Fetching the handles of `items`: one request for every item, in their
/// order, and after all of them a single wait.
pub open spec fn fetch_steps(items: Seq<FileItem>) -> Seq<FetchStep> {
    items.map_values(|item: FileItem| FetchStep::Request(item.slot)).push(FetchStep::AwaitAll)
}

/// The steps by which the handles of `items` are fetched. Every handle is
/// asked for before any is waited for: a host may drop what is asked for
/// after the first wait.
pub fn fetch_plan(items: &Vec<FileItem>) -> (plan: Vec<FetchStep>)
    ensures
        plan@ == fetch_steps(items@),
        forall|i: int, j: int|
            0 <= i < plan.len() && 0 <= j < plan.len() && plan[i] is Request && plan[j] is AwaitAll
                ==> i < j,
{
    let mut plan: Vec<FetchStep> = Vec::new();
    let mut i: usize = 0;
    while i < items.len()
        invariant
            i <= items.len(),
            plan@ == items@.take(i as int).map_values(|item: FileItem| FetchStep::Request(item.slot)),
        decreases items.len() - i,
    {
        plan.push(FetchStep::Request(items[i].slot));
        assert(plan@ =~= items@.take(i + 1).map_values(
            |item: FileItem| FetchStep::Request(item.slot),
        ));
        i = i + 1;
    }
    assert(items@.take(i as int) =~= items@);
    plan.push(FetchStep::AwaitAll);
    plan
}

/// What asking one item for its plain file gave.
#[derive(Debug, PartialEq, Eq)]
pub enum FileOutcome {
    /// A file of the given name.
    Found(String),
    /// The item holds no file.
    NotAFile,
    /// Asking failed.
    Failed,
}

/// The line for item number `i` in the plain file listing.
pub open spec fn file_line(i: nat, outcome: FileOutcome) -> Seq<char> {
    match outcome {
        FileOutcome::Found(name) => "Items ["@ + decimal(i) + "] filename: "@ + name@,
        FileOutcome::NotAFile => "Items ["@ + decimal(i) + "] not a file"@,
        FileOutcome::Failed => "Items ["@ + decimal(i) + "] failed get_as_file()"@,
    }
}

/// The line for item number `i` in the plain file listing.
pub fn flat_file_line(i: usize, outcome: &FileOutcome) -> (line: String)
    ensures
        line@ == file_line(i as nat, *outcome),
{
    let mut line = String::from_str("Items [");
    push_decimal(&mut line, i);
    match outcome {
        FileOutcome::Found(name) => {
            line.append("] filename: ");
            line.append(name.as_str());
        },
        FileOutcome::NotAFile => {
            line.append("] not a file");
        },
        FileOutcome::Failed => {
            line.append("] failed get_as_file()");
        },
    }
    line
}

/// The plain file listing: one line for each item, in their order.
pub fn flat_file_lines(outcomes: &Vec<FileOutcome>) -> (lines: Vec<String>)
    ensures
        lines.len() == outcomes.len(),
        forall|i: int| 0 <= i < lines.len() ==> lines[i]@ == file_line(i as nat, outcomes[i]),
{
    let mut lines: Vec<String> = Vec::new();
    let mut i: usize = 0;
    while i < outcomes.len()
        invariant
            i <= outcomes.len(),
            lines.len() == i,
            forall|j: int| 0 <= j < i ==> lines[j]@ == file_line(j as nat, outcomes[j]),
        decreases outcomes.len() - i,
    {
        lines.push(flat_file_line(i, &outcomes[i]));
        i = i + 1;
    }
    lines
}

/// The line for a slot number `i` of the host that gave no item:
/// `Items [<i>] failed get()`.
pub fn missing_item_line(i: usize) -> (line: String)
    ensures
        line@ == "Items ["@ + decimal(i as nat) + "] failed get()"@,
{
    let mut line = String::from_str("Items [");
    push_decimal(&mut line, i);
    line.append("] failed get()");
    line
}

/// The line that tells how many items the host handed over: `Items: <n>`.
pub fn items_line(count: usize) -> (line: String)
    ensures
        line@ == "Items: "@ + decimal(count as nat),
{
    let mut line = String::from_str("Items: ");
    push_decimal(&mut line, count);
    line
}

/// The line that tells that the page waits for a drop.
pub fn ready_line() -> (line: String)
    ensures
        line@ == "WASM Demo initialized, ready for drag and drop"@,
{
    String::from_str("WASM Demo initialized, ready for drag and drop")
}

} // verus!
