//! Handles: what the listing knows of one file or directory of the host.

use vstd::prelude::*;
use crate::property::{get_string, no_property_message, not_string_message, Lookup};

verus! {

/// What a handle turned out to be once its kind tag was read.
#[derive(Clone, Copy, Debug, PartialEq, Eq, Structural)]
pub enum HandleKind {
    File,
    Directory,
    /// The host reported a tag that is neither `file` nor `directory`. That
    /// is no error.
    Unknown,
}

/// The kind that the tag `tag` stands for.
pub open spec fn kind_of(tag: Seq<char>) -> HandleKind {
    if tag == "file"@ {
        HandleKind::File
    } else if tag == "directory"@ {
        HandleKind::Directory
    } else {
        HandleKind::Unknown
    }
}

/// The kind that the tag `tag` stands for.
pub fn classify(tag: &str) -> (k: HandleKind)
    ensures
        k == kind_of(tag@),
{
    let tag = String::from_str(tag);
    if tag == String::from_str("file") {
        HandleKind::File
    } else if tag == String::from_str("directory") {
        HandleKind::Directory
    } else {
        HandleKind::Unknown
    }
}

/// The two properties of a handle that the listing reads: its name and its
/// kind tag, as the host gave them.
#[derive(Debug, PartialEq, Eq)]
pub struct HandleInfo {
    pub name: String,
    pub kind: String,
}

impl HandleInfo {
    /// The kind that this handle's tag stands for.
    pub fn kind(&self) -> (k: HandleKind)
        ensures
            k == kind_of(self.kind@),
    {
        classify(self.kind.as_str())
    }
}

/// What reading a handle gave: its name and kind tag, or, where the host
/// broke its word, the message for the first property that could not be read.
pub open spec fn reading_of(name: Lookup<String>, kind: Lookup<String>) -> Result<
    (Seq<char>, Seq<char>),
    Seq<char>,
> {
    match name {
        Lookup::Failed => Err(no_property_message("Handle"@, "name"@)),
        Lookup::Mistyped => Err(not_string_message("Handle"@, "name"@)),
        Lookup::Found(n) => match kind {
            Lookup::Failed => Err(no_property_message("Handle"@, "kind"@)),
            Lookup::Mistyped => Err(not_string_message("Handle"@, "kind"@)),
            Lookup::Found(k) => Ok((n@, k@)),
        },
    }
}

/// Reads a handle from the lookups of its `name` and its `kind`. The name is
/// looked at first.
pub fn read_handle(name: Lookup<String>, kind: Lookup<String>) -> (r: Result<HandleInfo, String>)
    ensures
        match reading_of(name, kind) {
            Ok((n, k)) => r is Ok && r->Ok_0.name@ == n && r->Ok_0.kind@ == k,
            Err(m) => r is Err && r->Err_0@ == m,
        },
{
    match get_string(name, "name", "Handle") {
        Err(m) => Err(m),
        Ok(n) => match get_string(kind, "kind", "Handle") {
            Err(m) => Err(m),
            Ok(k) => Ok(HandleInfo { name: n, kind: k }),
        },
    }
}

} // verus!
