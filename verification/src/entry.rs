//! Entries: what the listing emits, one line each.

use vstd::prelude::*;
use crate::handle::{kind_of, HandleInfo, HandleKind};
use crate::text::{decimal, push_decimal};

verus! {

/// What an entry tells of.
#[derive(Clone, Copy, Debug, PartialEq, Eq, Structural)]
pub enum EntryKind {
    /// A file that was found.
    File,
    /// A directory that was found.
    Directory,
    /// Something that went wrong at one handle. The listing goes on.
    Error,
}

/// One emitted result of the listing.
#[derive(Debug, PartialEq, Eq)]
pub struct Entry {
    /// The path of the directory that holds the entry's handle, from the
    /// dropped item down.
    pub prefix: String,
    pub kind: EntryKind,
    /// The handle's name for a file or a directory, the message for an error.
    pub body: String,
}

/// An entry as plain text.
pub struct EntryView {
    pub prefix: Seq<char>,
    pub kind: EntryKind,
    pub body: Seq<char>,
}

impl View for Entry {
    type V = EntryView;

    open spec fn view(&self) -> EntryView {
        EntryView { prefix: self.prefix@, kind: self.kind, body: self.body@ }
    }
}

/// The entries of `entries` as plain text, in the same order.
pub open spec fn entries_view(entries: Seq<Entry>) -> Seq<EntryView> {
    entries.map_values(|e: Entry| e@)
}

/// The line of an entry: `<prefix>file: <name>`, `<prefix>directory: <name>`
/// or `<prefix><message>`.
pub open spec fn entry_text(e: EntryView) -> Seq<char> {
    match e.kind {
        EntryKind::File => e.prefix + "file: "@ + e.body,
        EntryKind::Directory => e.prefix + "directory: "@ + e.body,
        EntryKind::Error => e.prefix + e.body,
    }
}

/// The prefix of the dropped item number `i`: `Handles [<i>] /`.
pub open spec fn root_prefix(i: nat) -> Seq<char> {
    "Handles ["@ + decimal(i) + "] /"@
}

/// The prefix of the children of the directory `name` that itself stands
/// under `prefix`.
pub open spec fn child_prefix(prefix: Seq<char>, name: Seq<char>) -> Seq<char> {
    prefix + name + "/"@
}

/// `unknown kind: <tag>`.
pub open spec fn unknown_kind_message(tag: Seq<char>) -> Seq<char> {
    "unknown kind: "@ + tag
}

/// `Failed getting Directory handle values for <name>: <reason>`.
pub open spec fn expansion_failed_message(name: Seq<char>, reason: Seq<char>) -> Seq<char> {
    "Failed getting Directory handle values for "@ + name + ": "@ + reason
}

/// Whether what was read is a directory.
pub open spec fn is_directory(reading: Result<HandleInfo, String>) -> bool {
    reading is Ok && kind_of(reading->Ok_0.kind@) == HandleKind::Directory
}

/// The entry for a handle under `prefix` of which `reading` was read: the
/// file or directory by its name, an error that names the tag where the kind
/// is unknown, and the reading's own message where the handle could not be
/// read.
pub open spec fn entry_of_reading(prefix: Seq<char>, reading: Result<HandleInfo, String>)
    -> EntryView {
    match reading {
        Err(reason) => EntryView { prefix, kind: EntryKind::Error, body: reason@ },
        Ok(info) => match kind_of(info.kind@) {
            HandleKind::File => EntryView { prefix, kind: EntryKind::File, body: info.name@ },
            HandleKind::Directory => EntryView {
                prefix,
                kind: EntryKind::Directory,
                body: info.name@,
            },
            HandleKind::Unknown => EntryView {
                prefix,
                kind: EntryKind::Error,
                body: unknown_kind_message(info.kind@),
            },
        },
    }
}

/// The entry for a directory `name` under `prefix` that could not be
/// expanded.
pub open spec fn entry_of_failure(prefix: Seq<char>, name: Seq<char>, reason: Seq<char>)
    -> EntryView {
    EntryView { prefix, kind: EntryKind::Error, body: expansion_failed_message(name, reason) }
}

impl Entry {
    /// The line of this entry.
    pub fn line(&self) -> (s: String)
        ensures
            s@ == entry_text(self@),
    {
        let mut s = self.prefix.clone();
        match self.kind {
            EntryKind::File => {
                s.append("file: ");
            },
            EntryKind::Directory => {
                s.append("directory: ");
            },
            EntryKind::Error => {},
        }
        s.append(self.body.as_str());
        s
    }

    /// Whether this entry tells of something that went wrong.
    pub fn is_diagnostic(&self) -> (b: bool)
        ensures
            b == (self@.kind == EntryKind::Error),
    {
        match self.kind {
            EntryKind::Error => true,
            _ => false,
        }
    }

    /// The entry for a handle under `prefix` of which `reading` was read.
    pub fn of_reading(prefix: String, reading: Result<HandleInfo, String>) -> (e: Entry)
        ensures
            e@ == entry_of_reading(prefix@, reading),
    {
        match reading {
            Err(reason) => Entry { prefix, kind: EntryKind::Error, body: reason },
            Ok(info) => match info.kind() {
                HandleKind::File => Entry { prefix, kind: EntryKind::File, body: info.name },
                HandleKind::Directory => Entry {
                    prefix,
                    kind: EntryKind::Directory,
                    body: info.name,
                },
                HandleKind::Unknown => {
                    let mut body = String::from_str("unknown kind: ");
                    body.append(info.kind.as_str());
                    Entry { prefix, kind: EntryKind::Error, body }
                },
            },
        }
    }

    /// The entry for a directory `name` under `prefix` that could not be
    /// expanded for the reason `reason`.
    pub fn of_failure(prefix: String, name: &str, reason: &str) -> (e: Entry)
        ensures
            e@ == entry_of_failure(prefix@, name@, reason@),
    {
        let mut body = String::from_str("Failed getting Directory handle values for ");
        body.append(name);
        body.append(": ");
        body.append(reason);
        Entry { prefix, kind: EntryKind::Error, body }
    }
}

/// The prefix of the dropped item number `i`.
pub fn root_prefix_string(i: usize) -> (s: String)
    ensures
        s@ == root_prefix(i as nat),
{
    let mut s = String::from_str("Handles [");
    push_decimal(&mut s, i);
    s.append("] /");
    s
}

/// The prefix of the children of the directory `name` under `prefix`.
pub fn child_prefix_string(prefix: &str, name: &str) -> (s: String)
    ensures
        s@ == child_prefix(prefix@, name@),
{
    let mut s = String::from_str(prefix);
    s.append(name);
    s.append("/");
    s
}

} // verus!
