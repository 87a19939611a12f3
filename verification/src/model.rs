//! A model of the pipeline's effect on storage.
//!
//! The process works a protocol over two directories: an inbox of pending
//! text items and an output directory of audio artifacts. Processing one
//! item writes its artifact durably and only then deletes the source file —
//! deletion is the authoritative signal that the item has been fully
//! processed, and a later listing no longer shows it. This module states
//! that protocol over sets of names and proves the at-most-once and
//! resumability consequences that the surrounding process relies on.

use vstd::prelude::*;

verus! {

/// The state of the two directories and of playback, by item name: which
/// names are pending in the inbox, which artifacts exist in the output
/// directory, and which items have been appended for playback, in order.
pub struct StoreState {
    pub inbox: Set<Seq<u8>>,
    pub artifacts: Set<Seq<u8>>,
    pub appended: Seq<Seq<u8>>,
}

/// The effect of fully processing one inbox item: its artifact is written to
/// the output directory, the audio is appended for playback, and only then
/// is the source file deleted from the inbox.
pub open spec fn process_item(s: StoreState, name: Seq<u8>) -> StoreState {
    StoreState {
        inbox: s.inbox.remove(name),
        artifacts: s.artifacts.insert(name),
        appended: s.appended.push(name),
    }
}

/// At-most-once processing: once an item has been processed, its source file
/// is gone and its artifact exists; no later inbox listing shows the name
/// again, so no pass synthesizes it a second time.
pub proof fn lemma_at_most_once(s: StoreState, name: Seq<u8>)
    requires
        s.inbox.contains(name),
    ensures
        !process_item(s, name).inbox.contains(name),
        process_item(s, name).artifacts.contains(name),
{
}

/// Resumability: if the process dies after processing item `a` but before
/// item `b`, the inbox it leaves behind no longer holds `a` but still holds
/// `b` — a restart picks up `b` and does not process `a` again.
pub proof fn lemma_resumable(s: StoreState, a: Seq<u8>, b: Seq<u8>)
    requires
        s.inbox.contains(a),
        s.inbox.contains(b),
        a != b,
    ensures
        !process_item(s, a).inbox.contains(a),
        process_item(s, a).inbox.contains(b),
{
}

/// Processing touches only the processed name: every other name keeps its
/// inbox membership, no artifact is ever removed, and nothing already
/// appended for playback is disturbed.
pub proof fn lemma_process_frame(s: StoreState, name: Seq<u8>, other: Seq<u8>)
    requires
        other != name,
    ensures
        process_item(s, name).inbox.contains(other) == s.inbox.contains(other),
        process_item(s, name).artifacts.contains(other) == s.artifacts.contains(other),
        process_item(s, name).appended == s.appended.push(name),
{
}

} // verus!
