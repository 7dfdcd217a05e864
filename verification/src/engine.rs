//! Trusted interface to the CRDT engine.
//!
//! The engine (automerge) produces and consumes the opaque byte blobs this
//! layer persists: change records keyed by actor and sequence number, saved
//! document snapshots, and per-peer sync states. What those bytes mean is
//! the engine's business; the wrappers below only carry values across, so
//! none of them promises anything about the engine's results, and the
//! document wrapper is verified for every value they may return.

use vstd::prelude::*;

verus! {

use automerge::sync::SyncDoc;

/// The CRDT document engine, transacting automatically.
#[verifier::external_type_specification]
#[verifier::external_body]
pub struct ExAutoCommit(automerge::AutoCommit);

/// The CRDT document engine with explicit transactions.
#[verifier::external_type_specification]
#[verifier::external_body]
pub struct ExAutomerge(automerge::Automerge);

/// A change produced or consumed by the engine.
#[verifier::external_type_specification]
#[verifier::external_body]
pub struct ExChange(automerge::Change);

/// The hash naming a change in the engine's dependency graph.
#[verifier::external_type_specification]
#[verifier::external_body]
pub struct ExChangeHash(automerge::ChangeHash);

/// The engine's sync-protocol cursor for one peer.
#[verifier::external_type_specification]
#[verifier::external_body]
pub struct ExSyncState(automerge::sync::State);

/// A message of the engine's sync protocol.
#[verifier::external_type_specification]
#[verifier::external_body]
pub struct ExSyncMessage(automerge::sync::Message);

/// The engine's error type.
#[verifier::external_type_specification]
#[verifier::external_body]
pub struct ExAutomergeError(automerge::AutomergeError);

/// The engine's error for a sync state that did not decode.
#[verifier::external_type_specification]
#[verifier::external_body]
pub struct ExDecodeStateError(automerge::sync::DecodeStateError);

/// The engine's error for a change blob that did not decode.
#[verifier::external_type_specification]
#[verifier::external_body]
pub struct ExLoadChangeError(automerge::LoadChangeError);

/// Relies on automerge::AutoCommit::new: a fresh, empty document.
#[verifier::external_body]
pub(crate) fn am_new() -> automerge::AutoCommit {
    automerge::AutoCommit::new()
}

/// Relies on automerge::AutoCommit::load: rebuilds a document from a saved
/// snapshot, or fails on bytes the engine rejects.
#[verifier::external_body]
pub(crate) fn am_load(data: &[u8]) -> Result<automerge::AutoCommit, automerge::AutomergeError> {
    automerge::AutoCommit::load(data)
}

/// Relies on automerge::AutoCommit::save: the document's full state as one
/// compact snapshot blob.
#[verifier::external_body]
pub(crate) fn am_save(doc: &mut automerge::AutoCommit) -> Vec<u8> {
    doc.save()
}

/// Relies on automerge::AutoCommit::get_heads: the current causal frontier.
#[verifier::external_body]
pub(crate) fn am_get_heads(doc: &mut automerge::AutoCommit) -> Vec<automerge::ChangeHash> {
    doc.get_heads()
}

/// Relies on automerge::AutoCommit::get_changes: every change not reachable
/// from the given heads, as (actor, sequence number, raw bytes) records.
#[verifier::external_body]
pub(crate) fn am_get_changes(
    doc: &mut automerge::AutoCommit,
    have_deps: &Vec<automerge::ChangeHash>,
) -> Vec<(Vec<u8>, u64, Vec<u8>)> {
    let cs = doc.get_changes(have_deps.as_slice());
    let mut out = Vec::new();
    for c in cs {
        out.push((c.actor_id().to_bytes().to_vec(), c.seq(), c.raw_bytes().to_vec()));
    }
    out
}

/// Relies on automerge::AutoCommit::apply_changes: integrates the changes,
/// or fails on ones the engine rejects.
#[verifier::external_body]
pub(crate) fn am_apply_changes(
    doc: &mut automerge::AutoCommit,
    changes: Vec<automerge::Change>,
) -> Result<(), automerge::AutomergeError> {
    doc.apply_changes(changes)
}

/// Relies on automerge::Change's accessors: the record a change persists
/// as — its actor's bytes, its sequence number and its raw bytes.
#[verifier::external_body]
pub(crate) fn change_record(c: &automerge::Change) -> (Vec<u8>, u64, Vec<u8>) {
    (c.actor_id().to_bytes().to_vec(), c.seq(), c.raw_bytes().to_vec())
}

/// Relies on automerge::Change::from_bytes: decodes one stored change blob.
#[verifier::external_body]
pub(crate) fn change_from_bytes(bytes: Vec<u8>) -> Result<
    automerge::Change,
    automerge::LoadChangeError,
> {
    automerge::Change::from_bytes(bytes)
}

/// Relies on automerge::sync::State::default: the cursor for a peer never
/// spoken to.
#[verifier::external_body]
pub(crate) fn sync_state_new() -> automerge::sync::State {
    automerge::sync::State::default()
}

/// Relies on automerge::sync::State::decode: rebuilds a persisted cursor.
#[verifier::external_body]
pub(crate) fn sync_state_decode(bytes: &[u8]) -> Result<
    automerge::sync::State,
    automerge::sync::DecodeStateError,
> {
    automerge::sync::State::decode(bytes)
}

/// Relies on automerge::sync::State::encode: the cursor as a persistable
/// blob.
#[verifier::external_body]
pub(crate) fn sync_state_encode(state: &automerge::sync::State) -> Vec<u8> {
    state.encode()
}

/// Relies on automerge's SyncDoc::generate_sync_message: the next outbound
/// message for this peer, if any, advancing the cursor either way.
#[verifier::external_body]
pub(crate) fn am_generate_sync_message(
    doc: &mut automerge::AutoCommit,
    state: &mut automerge::sync::State,
) -> Option<automerge::sync::Message> {
    doc.sync().generate_sync_message(state)
}

/// Relies on automerge's SyncDoc::receive_sync_message: integrates a peer's
/// message into the document and the cursor.
#[verifier::external_body]
pub(crate) fn am_receive_sync_message(
    doc: &mut automerge::AutoCommit,
    state: &mut automerge::sync::State,
    message: automerge::sync::Message,
) -> Result<(), automerge::AutomergeError> {
    doc.sync().receive_sync_message(state, message)
}

/// Runs a caller-supplied closure on the document. Relies on nothing: the
/// closure's effect on the opaque document is unspecified, and callers
/// promise nothing about the document afterwards.
#[verifier::external_body]
pub(crate) fn with_document<O, E, F: FnOnce(&mut automerge::AutoCommit) -> Result<O, E>>(
    doc: &mut automerge::AutoCommit,
    f: F,
) -> Result<O, E> {
    f(doc)
}

/// Relies on automerge::Automerge::new: a fresh, empty document.
#[verifier::external_body]
pub(crate) fn doc_new() -> automerge::Automerge {
    automerge::Automerge::new()
}

/// Relies on automerge::Automerge::load: rebuilds a document from a saved
/// snapshot, or fails on bytes the engine rejects.
#[verifier::external_body]
pub(crate) fn doc_load(data: &[u8]) -> Result<automerge::Automerge, automerge::AutomergeError> {
    automerge::Automerge::load(data)
}

/// Relies on automerge::Automerge::save: the document's full state as one
/// compact snapshot blob.
#[verifier::external_body]
pub(crate) fn doc_save(doc: &automerge::Automerge) -> Vec<u8> {
    doc.save()
}

/// Relies on automerge::Automerge::get_heads: the current causal frontier.
#[verifier::external_body]
pub(crate) fn doc_get_heads(doc: &automerge::Automerge) -> Vec<automerge::ChangeHash> {
    doc.get_heads()
}

/// Relies on automerge::Automerge::get_changes: every change not reachable
/// from the given heads, as (actor, sequence number, raw bytes) records.
#[verifier::external_body]
pub(crate) fn doc_get_changes(
    doc: &automerge::Automerge,
    have_deps: &Vec<automerge::ChangeHash>,
) -> Vec<(Vec<u8>, u64, Vec<u8>)> {
    let cs = doc.get_changes(have_deps.as_slice());
    let mut out = Vec::new();
    for c in cs {
        out.push((c.actor_id().to_bytes().to_vec(), c.seq(), c.raw_bytes().to_vec()));
    }
    out
}

/// Relies on automerge::Automerge::apply_changes: integrates the changes,
/// or fails on ones the engine rejects.
#[verifier::external_body]
pub(crate) fn doc_apply_changes(
    doc: &mut automerge::Automerge,
    changes: Vec<automerge::Change>,
) -> Result<(), automerge::AutomergeError> {
    doc.apply_changes(changes)
}

/// Relies on automerge's SyncDoc::generate_sync_message for Automerge: the
/// next outbound message for this peer, if any, advancing the cursor
/// either way.
#[verifier::external_body]
pub(crate) fn doc_generate_sync_message(
    doc: &automerge::Automerge,
    state: &mut automerge::sync::State,
) -> Option<automerge::sync::Message> {
    doc.generate_sync_message(state)
}

/// Relies on automerge's SyncDoc::receive_sync_message for Automerge:
/// integrates a peer's message into the document and the cursor.
#[verifier::external_body]
pub(crate) fn doc_receive_sync_message(
    doc: &mut automerge::Automerge,
    state: &mut automerge::sync::State,
    message: automerge::sync::Message,
) -> Result<(), automerge::AutomergeError> {
    doc.receive_sync_message(state, message)
}

/// Runs a caller-supplied closure on the document. Relies on nothing: the
/// closure's effect on the opaque document is unspecified, and callers
/// promise nothing about the document afterwards.
#[verifier::external_body]
pub(crate) fn with_automerge<O, E, F: FnOnce(&mut automerge::Automerge) -> Result<O, E>>(
    doc: &mut automerge::Automerge,
    f: F,
) -> Result<O, E> {
    f(doc)
}

} // verus!
