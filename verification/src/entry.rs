//! Log entries.

use crate::log_id::LogId;
use crate::membership::{Membership, MembershipView};
use crate::node::{Node, NodeId};
use vstd::prelude::*;

verus! {

/// What the engine sees of a log entry.
#[verifier::reject_recursive_types(NID)]
pub struct EntryView<NID, M> {
    pub log_id: LogId<NID>,
    pub membership: Option<MembershipView<NID, M>>,
}

/// A log entry, whatever application data it carries.
pub trait RaftEntry<NID: NodeId, N: Node>: Sized {
    /// The id of the entry.
    spec fn log_id(self) -> LogId<NID>;

    /// The membership that the entry holds, if it is a membership entry.
    spec fn membership(self) -> Option<MembershipView<NID, N::V>>;

    /// The same entry under another id.
    spec fn with_log_id(self, id: LogId<NID>) -> Self;

    /// A new id replaces the id of an entry and leaves its membership alone.
    proof fn with_log_id_changes_only_id(self, id: LogId<NID>)
        ensures
            self.with_log_id(id).log_id() == id,
            self.with_log_id(id).membership() == self.membership(),
    ;

    /// Returns the id of the entry.
    fn get_log_id(&self) -> (r: &LogId<NID>)
        ensures
            *r == self.log_id(),
    ;

    /// Returns the membership that the entry holds, if it is a membership entry.
    fn get_membership(&self) -> (r: Option<&Membership<NID, N>>)
        ensures
            r is Some <==> self.membership() is Some,
            r matches Some(m) ==> self.membership() == Some(m@),
    ;

    /// Gives the entry another id.
    fn set_log_id(&mut self, id: &LogId<NID>)
        ensures
            *final(self) == old(self).with_log_id(*id),
    ;
}

/// What the engine sees of an entry.
pub open spec fn entry_view<NID: NodeId, N: Node, Ent: RaftEntry<NID, N>>(e: Ent) -> EntryView<
    NID,
    N::V,
> {
    EntryView { log_id: e.log_id(), membership: e.membership() }
}

/// What the engine sees of a list of entries.
pub open spec fn entry_views<NID: NodeId, N: Node, Ent: RaftEntry<NID, N>>(
    entries: Seq<Ent>,
) -> Seq<EntryView<NID, N::V>> {
    Seq::new(entries.len(), |i: int| entry_view(entries[i]))
}

/// The ids of a list of entries.
pub open spec fn ids_of<NID, M>(entries: Seq<EntryView<NID, M>>) -> Seq<LogId<NID>> {
    Seq::new(entries.len(), |i: int| entries[i].log_id)
}

/// What a log entry carries.
#[derive(Debug, PartialEq, Eq)]
pub enum EntryPayload<NID: NodeId, N: Node> {
    /// Nothing: a leader appends such an entry when it takes office.
    Blank,
    /// Application data.
    Normal(Vec<u8>),
    /// A membership.
    Membership(Membership<NID, N>),
}

/// A log entry with bytes as application data.
#[derive(Debug, PartialEq, Eq)]
pub struct Entry<NID: NodeId, N: Node> {
    pub log_id: LogId<NID>,
    pub payload: EntryPayload<NID, N>,
}

impl<NID: NodeId, N: Node> RaftEntry<NID, N> for Entry<NID, N> {
    open spec fn log_id(self) -> LogId<NID> {
        self.log_id
    }

    open spec fn membership(self) -> Option<MembershipView<NID, N::V>> {
        match self.payload {
            EntryPayload::Membership(m) => Some(m@),
            _ => None,
        }
    }

    open spec fn with_log_id(self, id: LogId<NID>) -> Self {
        Entry { log_id: id, ..self }
    }

    proof fn with_log_id_changes_only_id(self, id: LogId<NID>) {
    }

    fn get_log_id(&self) -> (r: &LogId<NID>) {
        &self.log_id
    }

    fn get_membership(&self) -> (r: Option<&Membership<NID, N>>) {
        match &self.payload {
            EntryPayload::Membership(m) => Some(m),
            _ => None,
        }
    }

    fn set_log_id(&mut self, id: &LogId<NID>) {
        self.log_id = *id;
    }
}

} // verus!
