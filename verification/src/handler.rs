//! The server-side command step: interpret one frame as a command, execute
//! it against the store, and produce the reply frame.
//!
//! The surrounding loop — read a frame, call [`handle_frame`], write the
//! reply, repeat until clean EOF or an error — lives with the transport,
//! outside the library. A frame that is no supported command is answered
//! with an Error frame and the connection lives on.

use vstd::prelude::*;

use crate::command::{from_frame, spec_command_of, Command, CommandModel};
use crate::frame::{frame_texts_ok, frame_wf, FrameModel, LeafModel, WireFrame};
use crate::store::KeyValueStore;

verus! {

/// The reply to a successful SET: `Simple("OK")`.
pub open spec fn ok_text() -> Seq<u8> {
    seq![79u8, 75u8]
}

/// The reply text for a frame that is no supported command.
pub open spec fn unknown_reply_text() -> Seq<u8> {
    seq![69u8, 82u8, 82u8, 32u8, 117u8, 110u8, 107u8, 110u8, 111u8, 119u8, 110u8, 32u8, 99u8, 111u8, 109u8, 109u8, 97u8, 110u8, 100u8]
}

/// Executes one typed command against the store and builds the reply
/// frame: `Simple("OK")` for a SET, the stored bytes or `Null` for a GET.
pub fn execute(store: &mut KeyValueStore, cmd: Command) -> (reply: WireFrame)
    ensures
        frame_wf(reply),
        frame_texts_ok(reply),
        match cmd.model() {
            CommandModel::Get(k) => final(store)@ == old(store)@ && reply.model() == (
            if old(store)@.contains_key(k) {
                FrameModel::Leaf(LeafModel::Bulk(old(store)@[k]))
            } else {
                FrameModel::Leaf(LeafModel::Null)
            }),
            CommandModel::Put(k, v) => final(store)@ == old(store)@.insert(k, v)
                && reply.model() == FrameModel::Leaf(LeafModel::Simple(ok_text())),
        },
{
    match cmd {
        Command::Get { key } => match store.get(&key) {
            Some(value) => WireFrame::Bulk(value),
            None => WireFrame::Null,
        },
        Command::Put { key, value } => {
            store.set(key, value);
            let reply = WireFrame::Simple(vec![79u8, 75u8]);
            assert(reply.model() == FrameModel::Leaf(LeafModel::Simple(ok_text())));
            reply
        },
    }
}

/// One full exchange: interpret the frame, execute the command, reply.
/// A frame that is no supported command leaves the store untouched and is
/// answered with an Error frame — recoverable, never fatal.
pub fn handle_frame(store: &mut KeyValueStore, frame: &WireFrame) -> (reply: WireFrame)
    ensures
        frame_wf(reply),
        frame_texts_ok(reply),
        match spec_command_of(frame.model()) {
            Some(CommandModel::Get(k)) => final(store)@ == old(store)@ && reply.model() == (
            if old(store)@.contains_key(k) {
                FrameModel::Leaf(LeafModel::Bulk(old(store)@[k]))
            } else {
                FrameModel::Leaf(LeafModel::Null)
            }),
            Some(CommandModel::Put(k, v)) => final(store)@ == old(store)@.insert(k, v)
                && reply.model() == FrameModel::Leaf(LeafModel::Simple(ok_text())),
            None => final(store)@ == old(store)@ && reply.model() == FrameModel::Leaf(
                LeafModel::Error(unknown_reply_text()),
            ),
        },
{
    match from_frame(frame) {
        Ok(cmd) => execute(store, cmd),
        Err(_) => {
            let text = vec![
                69u8, 82u8, 82u8, 32u8, 117u8, 110u8, 107u8, 110u8, 111u8, 119u8, 110u8, 32u8,
                99u8, 111u8, 109u8, 109u8, 97u8, 110u8, 100u8,
            ];
            assert(text@ =~= unknown_reply_text());
            let reply = WireFrame::Error(text);
            assert(crate::frame::text_ok(unknown_reply_text()));
            reply
        },
    }
}

} // verus!
