//! The tree walker: a stack of pending units, worked off one unit at a time.
//!
//! The walker never touches the host. It says what it waits for, the caller
//! gets that from the host and hands it in, and the walker answers with the
//! entry to emit, if there is one. A unit is worked off when its handle has
//! been read and, for a directory, listed.

use vstd::prelude::*;
use crate::entry::{
    child_prefix, child_prefix_string, entry_of_failure, entry_of_reading, is_directory,
    root_prefix, root_prefix_string, Entry, EntryView,
};
use crate::handle::{HandleInfo, HandleKind};

verus! {

/// One item of pending work: a handle of the host and the prefix of the
/// directory that holds it.
pub struct TraversalUnit<H> {
    pub handle: H,
    pub prefix: String,
}

/// A pending unit with its prefix as plain text.
pub struct UnitView<H> {
    pub handle: H,
    pub prefix: Seq<char>,
}

impl<H> View for TraversalUnit<H> {
    type V = UnitView<H>;

    open spec fn view(&self) -> UnitView<H> {
        UnitView { handle: self.handle, prefix: self.prefix@ }
    }
}

/// The units of `units` with their prefixes as plain text.
pub open spec fn units_view<H>(units: Seq<TraversalUnit<H>>) -> Seq<UnitView<H>> {
    units.map_values(|u: TraversalUnit<H>| u@)
}

/// What the walker waits for.
pub enum Phase<H> {
    /// The name and the kind of the unit's handle.
    Reading(UnitView<H>),
    /// The children of the unit's handle, a directory of the given name.
    Listing(UnitView<H>, Seq<char>),
    /// Nothing: the stack is empty and no unit is at work.
    Finished,
}

/// The state of a walk.
pub struct WalkerView<H> {
    /// The units still to be worked off. The last one comes next.
    pub stack: Seq<UnitView<H>>,
    pub phase: Phase<H>,
    /// How many units have been popped off the stack so far.
    pub pops: nat,
}

/// What the caller got from the host for the walker.
pub enum Event<H> {
    /// What reading the name and the kind of the current handle gave.
    Read(Result<HandleInfo, String>),
    /// What expanding the current handle gave: its children in the order of
    /// the host, or the reason why there are none.
    Listed(Result<Vec<H>, String>),
}

/// What the caller is to get from the host next.
#[derive(Clone, Copy, Debug, PartialEq, Eq, Structural)]
pub enum Request {
    /// Read the name and the kind of the current handle.
    Read,
    /// Expand the current handle.
    List,
    /// Nothing: the walk is over.
    Nothing,
}

/// The stack that a walk starts from: one unit for each dropped item whose
/// handle could be fetched, in the order of the items, each under the prefix
/// that holds the item's own index.
pub open spec fn seeded<H>(handles: Seq<Option<H>>) -> Seq<UnitView<H>>
    decreases handles.len(),
{
    if handles.len() == 0 {
        Seq::empty()
    } else {
        let rest = seeded(handles.drop_last());
        match handles.last() {
            Some(h) => rest.push(
                UnitView { handle: h, prefix: root_prefix((handles.len() - 1) as nat) },
            ),
            None => rest,
        }
    }
}

/// The stack `stack` with the units of `children` on top, in their order,
/// all under `prefix`.
pub open spec fn with_children<H>(stack: Seq<UnitView<H>>, children: Seq<H>, prefix: Seq<char>)
    -> Seq<UnitView<H>> {
    stack + children.map_values(|h: H| UnitView { handle: h, prefix })
}

/// The walk that turns to the next unit of `stack`: the top of the stack
/// is popped and waits to be read, or the walk is over.
pub open spec fn advance<H>(stack: Seq<UnitView<H>>, pops: nat) -> WalkerView<H> {
    if stack.len() == 0 {
        WalkerView { stack, phase: Phase::Finished, pops }
    } else {
        WalkerView { stack: stack.drop_last(), phase: Phase::Reading(stack.last()), pops: pops + 1 }
    }
}

/// The walk after `event` came in. An event that the walk does not wait for
/// changes nothing.
pub open spec fn walker_after<H>(w: WalkerView<H>, event: Event<H>) -> WalkerView<H> {
    match (w.phase, event) {
        (Phase::Reading(unit), Event::Read(reading)) => if is_directory(reading) {
            WalkerView {
                stack: w.stack,
                phase: Phase::Listing(unit, reading->Ok_0.name@),
                pops: w.pops,
            }
        } else {
            advance(w.stack, w.pops)
        },
        (Phase::Listing(unit, name), Event::Listed(Ok(children))) => advance(
            with_children(w.stack, children@, child_prefix(unit.prefix, name)),
            w.pops,
        ),
        (Phase::Listing(unit, name), Event::Listed(Err(reason))) => advance(w.stack, w.pops),
        _ => w,
    }
}

/// The entry that `event` makes the walk emit.
pub open spec fn entry_after<H>(w: WalkerView<H>, event: Event<H>) -> Option<EntryView> {
    match (w.phase, event) {
        (Phase::Reading(unit), Event::Read(reading)) => Some(
            entry_of_reading(unit.prefix, reading),
        ),
        (Phase::Listing(unit, name), Event::Listed(Err(reason))) => Some(
            entry_of_failure(unit.prefix, name, reason@),
        ),
        _ => None,
    }
}

/// A walk over what was dropped.
pub struct Walker<H> {
    stack: Vec<TraversalUnit<H>>,
    /// The unit at work.
    current: Option<TraversalUnit<H>>,
    /// The name of the unit at work, once it is known to be a directory.
    listing: Option<String>,
    pops: Ghost<nat>,
}

impl<H> View for Walker<H> {
    type V = WalkerView<H>;

    closed spec fn view(&self) -> WalkerView<H> {
        WalkerView {
            stack: units_view(self.stack@),
            phase: match (self.current, self.listing) {
                (None, _) => Phase::Finished,
                (Some(unit), None) => Phase::Reading(unit@),
                (Some(unit), Some(name)) => Phase::Listing(unit@, name@),
            },
            pops: self.pops@,
        }
    }
}

impl<H> Walker<H> {
    /// Only a walk that is over has no unit at work, and then its stack is
    /// empty.
    #[verifier::type_invariant]
    spec fn well_formed(&self) -> bool {
        self.current is None ==> self.stack@.len() == 0 && self.listing is None
    }
}

/// The elements of `v` in the opposite order.
fn reversed<T>(v: Vec<T>) -> (r: Vec<T>)
    ensures
        r.len() == v.len(),
        forall|i: int| 0 <= i < r.len() ==> r[i] == v[v.len() - 1 - i],
{
    let ghost orig = v@;
    let mut v = v;
    let mut r: Vec<T> = Vec::new();
    while v.len() > 0
        invariant
            v.len() + r.len() == orig.len(),
            forall|i: int| 0 <= i < v.len() ==> v[i] == orig[i],
            forall|i: int| 0 <= i < r.len() ==> r[i] == orig[orig.len() - 1 - i],
        decreases v.len(),
    {
        match v.pop() {
            Some(x) => {
                r.push(x);
            },
            None => {},
        }
    }
    r
}

/// Pushes the units of `children` on `stack`, in their order, all under
/// `prefix`.
fn push_children<H>(stack: &mut Vec<TraversalUnit<H>>, children: Vec<H>, prefix: &String)
    ensures
        units_view(final(stack)@) == with_children(units_view(old(stack)@), children@, prefix@),
{
    let ghost n = children.len() as int;
    let mut rest = reversed(children);
    while rest.len() > 0
        invariant
            rest.len() <= n == children.len(),
            forall|i: int| 0 <= i < rest.len() ==> rest[i] == children[n - 1 - i],
            units_view(stack@) == with_children(
                units_view(old(stack)@),
                children@.take(n - rest.len()),
                prefix@,
            ),
        decreases rest.len(),
    {
        let ghost done = n - rest.len();
        match rest.pop() {
            Some(handle) => {
                let ghost before = units_view(stack@);
                stack.push(TraversalUnit { handle, prefix: prefix.clone() });
                assert(units_view(stack@) =~= before.push(
                    UnitView { handle, prefix: prefix@ },
                ));
                assert(children@.take(done + 1) =~= children@.take(done).push(handle));
                assert(units_view(stack@) =~= with_children(
                    units_view(old(stack)@),
                    children@.take(done + 1),
                    prefix@,
                ));
            },
            None => {},
        }
    }
    assert(children@.take(n) =~= children@);
}

impl<H> Walker<H> {
    /// Starts a walk over what was dropped. `handles` holds, for each
    /// dropped item in order, the handle that was fetched for it, or `None`
    /// where fetching failed: such an item contributes nothing. The walk
    /// turns to the last item at once.
    pub fn seed(handles: Vec<Option<H>>) -> (w: Walker<H>)
        ensures
            w@ == advance(seeded(handles@), 0),
    {
        let ghost n = handles.len() as int;
        let mut rest = reversed(handles);
        let mut stack: Vec<TraversalUnit<H>> = Vec::new();
        let mut i: usize = 0;
        assert(units_view(stack@) =~= seeded(handles@.take(0)));
        while rest.len() > 0
            invariant
                i + rest.len() == n == handles.len(),
                forall|j: int| 0 <= j < rest.len() ==> rest[j] == handles[n - 1 - j],
                units_view(stack@) == seeded(handles@.take(i as int)),
            decreases rest.len(),
        {
            let ghost before = units_view(stack@);
            assert(handles@.take(i + 1).drop_last() =~= handles@.take(i as int));
            match rest.pop() {
                Some(Some(handle)) => {
                    stack.push(TraversalUnit { handle, prefix: root_prefix_string(i) });
                    assert(units_view(stack@) =~= before.push(
                        UnitView { handle, prefix: root_prefix(i as nat) },
                    ));
                },
                _ => {},
            }
            i = i + 1;
        }
        assert(handles@.take(n) =~= handles@);
        Walker::turn(stack, Ghost(0))
    }

    /// The walk that turns to the next unit of `stack`.
    fn turn(stack: Vec<TraversalUnit<H>>, pops: Ghost<nat>) -> (w: Walker<H>)
        ensures
            w@ == advance(units_view(stack@), pops@),
    {
        let ghost before = units_view(stack@);
        let mut stack = stack;
        match stack.pop() {
            None => Walker { stack, current: None, listing: None, pops },
            Some(unit) => {
                assert(units_view(stack@) =~= before.drop_last());
                Walker { stack, current: Some(unit), listing: None, pops: Ghost(pops@ + 1) }
            },
        }
    }

    /// Takes in what the caller got from the host, and answers with the walk
    /// that follows and the entry to emit, if there is one.
    ///
    /// Reading a file, a handle of unknown kind or a handle that cannot be
    /// read emits one entry and ends the unit. Reading a directory emits its
    /// entry and asks for its children. The children of a directory go on
    /// the stack in their order, under the directory's prefix, its name and
    /// a slash, and nothing is emitted. A directory that could not be
    /// expanded emits one error and puts nothing on the stack. An event that
    /// the walk does not wait for changes nothing.
    pub fn step(self, event: Event<H>) -> (r: (Walker<H>, Option<Entry>))
        ensures
            r.0@ == walker_after(self@, event),
            match entry_after(self@, event) {
                Some(e) => r.1 is Some && r.1->Some_0@ == e,
                None => r.1 is None,
            },
    {
        proof {
            use_type_invariant(&self);
        }
        let Walker { stack, current, listing, pops } = self;
        match current {
            None => (Walker { stack, current: None, listing: None, pops }, None),
            Some(unit) => match (listing, event) {
                (None, Event::Read(reading)) => {
                    let name: Option<String> = match &reading {
                        Ok(info) => match info.kind() {
                            HandleKind::Directory => Some(info.name.clone()),
                            _ => None,
                        },
                        Err(_) => None,
                    };
                    match name {
                        Some(name) => {
                            let entry = Entry::of_reading(unit.prefix.clone(), reading);
                            (
                                Walker { stack, current: Some(unit), listing: Some(name), pops },
                                Some(entry),
                            )
                        },
                        None => {
                            let entry = Entry::of_reading(unit.prefix, reading);
                            (Walker::turn(stack, pops), Some(entry))
                        },
                    }
                },
                (Some(name), Event::Listed(Ok(children))) => {
                    let prefix = child_prefix_string(unit.prefix.as_str(), name.as_str());
                    let mut stack = stack;
                    push_children(&mut stack, children, &prefix);
                    (Walker::turn(stack, pops), None)
                },
                (Some(name), Event::Listed(Err(reason))) => {
                    let entry = Entry::of_failure(unit.prefix, name.as_str(), reason.as_str());
                    (Walker::turn(stack, pops), Some(entry))
                },
                (listing, _) => (Walker { stack, current: Some(unit), listing, pops }, None),
            },
        }
    }

    /// What the caller is to get from the host next.
    pub fn request(&self) -> (r: Request)
        ensures
            r == match self@.phase {
                Phase::Reading(_) => Request::Read,
                Phase::Listing(_, _) => Request::List,
                Phase::Finished => Request::Nothing,
            },
    {
        match (&self.current, &self.listing) {
            (None, _) => Request::Nothing,
            (Some(_), None) => Request::Read,
            (Some(_), Some(_)) => Request::List,
        }
    }

    /// The handle that the request is about.
    pub fn handle(&self) -> (h: Option<&H>)
        ensures
            match self@.phase {
                Phase::Reading(unit) => h == Some(&unit.handle),
                Phase::Listing(unit, _) => h == Some(&unit.handle),
                Phase::Finished => h is None && self@.stack.len() == 0,
            },
    {
        proof {
            use_type_invariant(self);
        }
        match &self.current {
            None => None,
            Some(unit) => Some(&unit.handle),
        }
    }

    /// Whether the walk is over: every unit has been worked off.
    pub fn is_finished(&self) -> (b: bool)
        ensures
            b == (self@.phase is Finished),
            b ==> self@.stack.len() == 0,
    {
        proof {
            use_type_invariant(self);
        }
        self.current.is_none()
    }

    /// How many units wait on the stack.
    pub fn pending(&self) -> (n: usize)
        ensures
            n == self@.stack.len(),
    {
        self.stack.len()
    }
}

} // verus!
