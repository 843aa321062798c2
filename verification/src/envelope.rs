//! The network envelope: the tagged union of messages a peer delivers,
//! and the type-narrowing extractors that handler dispatch is built from.

use vstd::prelude::*;
use crate::message::CommandResult;
use crate::payload::{PersistableNetworkPayload, ProtectedStorageEntry, RefreshOfferMessage};
use crate::store::{DataStore, add_map, add_result, refresh_map, refresh_result};
use crate::crypto::{persistable_hash_of, persistable_wf};

verus! {

/// Instruction to store a protected entry.
pub struct AddDataMessage {
    pub entry: ProtectedStorageEntry,
}

/// Instruction to store a persistable payload.
pub struct AddPersistableNetworkPayloadMessage {
    pub payload: PersistableNetworkPayload,
}

/// A liveness probe.
pub struct Ping {
    pub nonce: i32,
}

/// The tagged union of inbound messages this slice handles; other
/// variants travel through `Extract::Failed` to the next dispatcher.
pub enum Message {
    AddDataMessage(AddDataMessage),
    RefreshOfferMessage(RefreshOfferMessage),
    AddPersistableNetworkPayloadMessage(AddPersistableNetworkPayloadMessage),
    Ping(Ping),
}

/// The outcome of narrowing the envelope union to one variant; failure
/// returns the original message untouched.
pub enum Extract<P> {
    Succeeded(P),
    Failed(Message),
}

/// Type-narrowing over the envelope union.
pub trait PayloadExtractor {
    type Extraction;

    /// Whether the envelope holds this extractor's variant.
    spec fn matches_spec(msg: Message) -> bool;

    /// The carried value, when the variant matches.
    spec fn extraction_of(msg: Message) -> Self::Extraction
        recommends
            Self::matches_spec(msg),
    ;

    /// Narrows the message, or hands it back unchanged.
    fn extract(msg: Message) -> (r: Extract<Self::Extraction>)
        ensures
            Self::matches_spec(msg) ==> (r matches Extract::Succeeded(p) && p
                == Self::extraction_of(msg)),
            !Self::matches_spec(msg) ==> (r matches Extract::Failed(m) && m == msg),
    ;
}

impl PayloadExtractor for AddDataMessage {
    type Extraction = AddDataMessage;

    open spec fn matches_spec(msg: Message) -> bool {
        msg is AddDataMessage
    }

    open spec fn extraction_of(msg: Message) -> AddDataMessage {
        match msg {
            Message::AddDataMessage(m) => m,
            _ => arbitrary(),
        }
    }

    fn extract(msg: Message) -> (r: Extract<AddDataMessage>) {
        if let Message::AddDataMessage(request) = msg {
            Extract::Succeeded(request)
        } else {
            Extract::Failed(msg)
        }
    }
}

impl PayloadExtractor for RefreshOfferMessage {
    type Extraction = RefreshOfferMessage;

    open spec fn matches_spec(msg: Message) -> bool {
        msg is RefreshOfferMessage
    }

    open spec fn extraction_of(msg: Message) -> RefreshOfferMessage {
        match msg {
            Message::RefreshOfferMessage(m) => m,
            _ => arbitrary(),
        }
    }

    fn extract(msg: Message) -> (r: Extract<RefreshOfferMessage>) {
        if let Message::RefreshOfferMessage(request) = msg {
            Extract::Succeeded(request)
        } else {
            Extract::Failed(msg)
        }
    }
}

impl PayloadExtractor for AddPersistableNetworkPayloadMessage {
    type Extraction = AddPersistableNetworkPayloadMessage;

    open spec fn matches_spec(msg: Message) -> bool {
        msg is AddPersistableNetworkPayloadMessage
    }

    open spec fn extraction_of(msg: Message) -> AddPersistableNetworkPayloadMessage {
        match msg {
            Message::AddPersistableNetworkPayloadMessage(m) => m,
            _ => arbitrary(),
        }
    }

    fn extract(msg: Message) -> (r: Extract<AddPersistableNetworkPayloadMessage>) {
        if let Message::AddPersistableNetworkPayloadMessage(request) = msg {
            Extract::Succeeded(request)
        } else {
            Extract::Failed(msg)
        }
    }
}

impl DataStore {
    /// Routes one inbound envelope message into the store; a variant this
    /// slice does not handle comes back unchanged for the next dispatcher.
    pub fn handle(&mut self, msg: Message) -> (r: Extract<CommandResult>)
        requires
            old(self).wf(),
        ensures
            final(self).wf(),
            match msg {
                Message::AddDataMessage(m) => r matches Extract::Succeeded(c) && c == add_result(
                    old(self).storage_map(),
                    m.entry,
                ) && final(self).storage_map() == add_map(old(self).storage_map(), m.entry)
                    && final(self).persistable_keys() == old(self).persistable_keys()
                    && final(self).persistable_len() == old(self).persistable_len(),
                Message::RefreshOfferMessage(m) => r matches Extract::Succeeded(c) && c
                    == refresh_result(old(self).storage_map(), m) && final(self).storage_map()
                    == refresh_map(old(self).storage_map(), m)
                    && final(self).persistable_keys() == old(self).persistable_keys()
                    && final(self).persistable_len() == old(self).persistable_len(),
                Message::AddPersistableNetworkPayloadMessage(m) => r matches Extract::Succeeded(c)
                    && final(self).storage_map() == old(self).storage_map()
                    && final(self).book_map() == old(self).book_map()
                    && (if !persistable_wf(m.payload) {
                    c == CommandResult::Ignored
                        && final(self).persistable_keys() == old(self).persistable_keys()
                        && final(self).persistable_len() == old(self).persistable_len()
                } else if old(self).persistable_keys().contains(persistable_hash_of(m.payload)) {
                    c == CommandResult::Ignored
                        && final(self).persistable_keys() == old(self).persistable_keys()
                        && final(self).persistable_len() == old(self).persistable_len()
                } else {
                    c == CommandResult::Accepted
                        && final(self).persistable_keys() == old(self).persistable_keys().insert(
                        persistable_hash_of(m.payload),
                    )
                        && final(self).persistable_len() == old(self).persistable_len() + 1
                }),
                _ => r matches Extract::Failed(m2) && m2 == msg && *final(self) == *old(self),
            },
    {
        match AddDataMessage::extract(msg) {
            Extract::Succeeded(m) => Extract::Succeeded(self.add_protected(m.entry)),
            Extract::Failed(msg) => match RefreshOfferMessage::extract(msg) {
                Extract::Succeeded(m) => Extract::Succeeded(self.refresh(m)),
                Extract::Failed(msg) => match AddPersistableNetworkPayloadMessage::extract(msg) {
                    Extract::Succeeded(m) => Extract::Succeeded(self.add_persistable(m.payload)),
                    Extract::Failed(msg) => Extract::Failed(msg),
                },
            },
        }
    }
}

} // verus!
