//! The handles that a process has.

use crate::object::invoke::InvocationError;
use crate::object::rights::AccessRights;
use vstd::prelude::*;

verus! {

/// The number of a handle in its process.
#[derive(Debug, Clone, Copy, PartialEq, Eq, Structural)]
pub struct HandleID(pub usize);

/// An object that a handle stands for, and what may be done with it.
#[derive(Debug, Clone, Copy, PartialEq, Eq, Structural)]
pub struct HandleEntry {
    pub object: u64,
    pub rights: AccessRights,
}

pub type Handles = Seq<Option<HandleEntry>>;

/// The object that a handle stands for, for one who wants to do what `rights`
/// allow.
pub open spec fn resolved(handles: Handles, id: HandleID, rights: AccessRights) -> Result<
    u64,
    InvocationError,
> {
    if id.0 >= handles.len() {
        Err(InvocationError::InvalidHandle)
    } else {
        match handles[id.0 as int] {
            None => Err(InvocationError::InvalidHandle),
            Some(entry) => if entry.rights.covers(rights) {
                Ok(entry.object)
            } else {
                Err(InvocationError::AccessDenied)
            },
        }
    }
}

/// The handles with one more at a given number.
pub open spec fn placed(handles: Handles, i: int, entry: HandleEntry) -> Handles {
    Seq::new(
        if i < handles.len() {
            handles.len()
        } else {
            (i + 1) as nat
        },
        |k: int|
            if k == i {
                Some(entry)
            } else if k < handles.len() {
                handles[k]
            } else {
                None
            },
    )
}

pub struct HandleTable {
    entries: Vec<Option<HandleEntry>>,
}

impl View for HandleTable {
    type V = Handles;

    closed spec fn view(&self) -> Handles {
        self.entries@
    }
}

impl HandleTable {
    pub fn new() -> (r: Self)
        ensures
            r@ == Handles::empty(),
    {
        HandleTable { entries: Vec::new() }
    }

    /// Puts an object at a given handle, in place of what was there.
    pub fn insert_at(&mut self, id: HandleID, object: u64, rights: AccessRights)
        ensures
            final(self)@ == placed(old(self)@, id.0 as int, HandleEntry { object, rights }),
    {
        let entry = HandleEntry { object, rights };
        if id.0 < self.entries.len() {
            self.entries.set(id.0, Some(entry));
        } else {
            while self.entries.len() < id.0
                invariant
                    old(self)@.len() <= self.entries@.len() <= id.0,
                    forall|k: int| 0 <= k < old(self)@.len() ==> self.entries@[k] == old(self)@[k],
                    forall|k: int|
                        old(self)@.len() <= k < self.entries@.len() ==> self.entries@[k] is None,
                decreases id.0 - self.entries@.len(),
            {
                self.entries.push(None);
            }
            self.entries.push(Some(entry));
        }
        assert(self@ =~= placed(old(self)@, id.0 as int, entry));
    }

    /// Gives an object a handle that no object has had before.
    pub fn insert(&mut self, object: u64, rights: AccessRights) -> (r: HandleID)
        ensures
            r.0 == old(self)@.len(),
            final(self)@ == old(self)@.push(Some(HandleEntry { object, rights })),
    {
        let id = self.entries.len();
        self.entries.push(Some(HandleEntry { object, rights }));
        HandleID(id)
    }

    /// The object that a handle stands for, where `rights` are among its
    /// rights.
    pub fn resolve(&self, id: HandleID, rights: AccessRights) -> (r: Result<u64, InvocationError>)
        ensures
            r == resolved(self@, id, rights),
    {
        if id.0 >= self.entries.len() {
            return Err(InvocationError::InvalidHandle);
        }
        match self.entries[id.0] {
            None => Err(InvocationError::InvalidHandle),
            Some(entry) => if entry.rights.has(rights) {
                Ok(entry.object)
            } else {
                Err(InvocationError::AccessDenied)
            },
        }
    }

    /// Takes a handle away.
    pub fn close(&mut self, id: HandleID) -> (r: Result<(), InvocationError>)
        ensures
            if id.0 < old(self)@.len() && old(self)@[id.0 as int] is Some {
                r is Ok && final(self)@ == old(self)@.update(id.0 as int, None)
            } else {
                r == Err::<(), InvocationError>(InvocationError::InvalidHandle) && final(self)@
                    == old(self)@
            },
    {
        if id.0 >= self.entries.len() {
            return Err(InvocationError::InvalidHandle);
        }
        if self.entries[id.0].is_none() {
            return Err(InvocationError::InvalidHandle);
        }
        self.entries.set(id.0, None);
        Ok(())
    }
}

/// A new handle stands for its object with the rights it was given, and the
/// handles there were stand for what they stood for.
pub proof fn law_new_handle_resolves(
    handles: Handles,
    entry: HandleEntry,
    other: HandleID,
    rights: AccessRights,
)
    requires
        handles.len() <= usize::MAX,
    ensures
        resolved(handles.push(Some(entry)), HandleID(handles.len() as usize), rights)
            == if entry.rights.covers(rights) {
            Ok(entry.object)
        } else {
            Err(InvocationError::AccessDenied)
        },
        other.0 < handles.len() ==> resolved(handles.push(Some(entry)), other, rights) == resolved(
            handles,
            other,
            rights,
        ),
{
}

/// A handle that has been closed stands for nothing, whatever handles are
/// made after.
pub proof fn law_closed_handle_is_gone(
    handles: Handles,
    id: HandleID,
    entry: HandleEntry,
    rights: AccessRights,
)
    requires
        id.0 < handles.len(),
    ensures
        ({
            let closed = handles.update(id.0 as int, None);
            &&& resolved(closed, id, rights) == Err::<u64, InvocationError>(
                InvocationError::InvalidHandle,
            )
            &&& resolved(closed.push(Some(entry)), id, rights) == Err::<u64, InvocationError>(
                InvocationError::InvalidHandle,
            )
        }),
{
}

} // verus!
