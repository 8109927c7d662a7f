//! The client-side request multiplexor's decision logic.
//!
//! Many callers feed one bounded FIFO queue; a single background worker
//! owns the connection, dequeues one pending command at a time, sends its
//! request frame, waits for the reply frame, and delivers the interpreted
//! reply to the ticket taken from the queue head. The queue and the
//! pairing are verified here; the channels, the socket and the waiting
//! live with the transport, outside the library.

use vstd::prelude::*;

use crate::command::{get_name, set_name, spec_command_of, Command, CommandModel};
use crate::frame::{frame_texts_ok, frame_wf, FrameModel, LeafModel, WireFrame};
use crate::handler::ok_text;

verus! {

/// How many submissions may be in flight at once; a full queue makes
/// further submissions wait.
pub const MUX_CAPACITY: usize = 32;

/// The request frame for a command, exactly as the wire format defines
/// it: the command name travels as a Bulk string.
pub open spec fn spec_request(c: CommandModel) -> FrameModel {
    match c {
        CommandModel::Get(k) => FrameModel::Array(
            seq![LeafModel::Bulk(get_name()), LeafModel::Bulk(k)],
        ),
        CommandModel::Put(k, v) => FrameModel::Array(
            seq![LeafModel::Bulk(set_name()), LeafModel::Bulk(k), LeafModel::Bulk(v)],
        ),
    }
}

/// Builds the request frame that carries a command to the server.
pub fn request_frame(cmd: Command) -> (f: WireFrame)
    ensures
        f.model() == spec_request(cmd.model()),
        frame_wf(f),
        frame_texts_ok(f),
{
    match cmd {
        Command::Get { key } => {
            let mut items: Vec<WireFrame> = Vec::new();
            items.push(WireFrame::Bulk(vec![103u8, 101u8, 116u8]));
            items.push(WireFrame::Bulk(key));
            let f = WireFrame::Array(items);
            assert(f.model()->Array_0 =~= spec_request(CommandModel::Get(key@))->Array_0);
            f
        },
        Command::Put { key, value } => {
            let mut items: Vec<WireFrame> = Vec::new();
            items.push(WireFrame::Bulk(vec![115u8, 101u8, 116u8]));
            items.push(WireFrame::Bulk(key));
            items.push(WireFrame::Bulk(value));
            let f = WireFrame::Array(items);
            assert(f.model()->Array_0 =~= spec_request(
                CommandModel::Put(key@, value@),
            )->Array_0);
            f
        },
    }
}

/// The interpreter reads back exactly the command a request frame carries:
/// building a request and interpreting it are inverse.
pub proof fn lemma_request_parses_back(c: CommandModel)
    ensures
        spec_command_of(spec_request(c)) == Some(c),
{
    match c {
        CommandModel::Get(_) => {
            assert(crate::command::lower_seq(get_name()) =~= get_name());
        },
        CommandModel::Put(_, _) => {
            assert(crate::command::lower_seq(set_name()) =~= set_name());
        },
    }
}

/// What a reply frame means to the caller that issued the command.
#[derive(Debug, PartialEq, Eq)]
pub enum ReplyOutcome {
    /// The GET found this value.
    GetFound(Vec<u8>),
    /// The GET found no entry.
    GetMissing,
    /// The SET was applied.
    SetDone,
    /// The server answered with an Error frame.
    ServerError(Vec<u8>),
    /// The reply frame fits neither the command nor an error: the peer
    /// violated the protocol.
    ProtocolViolation,
}

/// The mathematical model of a reply outcome.
pub enum ReplyOutcomeModel {
    GetFound(Seq<u8>),
    GetMissing,
    SetDone,
    ServerError(Seq<u8>),
    ProtocolViolation,
}

impl ReplyOutcome {
    pub open spec fn model(self) -> ReplyOutcomeModel {
        match self {
            ReplyOutcome::GetFound(v) => ReplyOutcomeModel::GetFound(v@),
            ReplyOutcome::GetMissing => ReplyOutcomeModel::GetMissing,
            ReplyOutcome::SetDone => ReplyOutcomeModel::SetDone,
            ReplyOutcome::ServerError(e) => ReplyOutcomeModel::ServerError(e@),
            ReplyOutcome::ProtocolViolation => ReplyOutcomeModel::ProtocolViolation,
        }
    }
}

/// What a reply frame means for a given command.
pub open spec fn spec_reply_outcome(c: CommandModel, m: FrameModel) -> ReplyOutcomeModel {
    match c {
        CommandModel::Get(_) => match m {
            FrameModel::Leaf(LeafModel::Bulk(b)) => ReplyOutcomeModel::GetFound(b),
            FrameModel::Leaf(LeafModel::Null) => ReplyOutcomeModel::GetMissing,
            FrameModel::Leaf(LeafModel::Error(t)) => ReplyOutcomeModel::ServerError(t),
            _ => ReplyOutcomeModel::ProtocolViolation,
        },
        CommandModel::Put(_, _) => match m {
            FrameModel::Leaf(LeafModel::Simple(s)) => if s == ok_text() {
                ReplyOutcomeModel::SetDone
            } else {
                ReplyOutcomeModel::ProtocolViolation
            },
            FrameModel::Leaf(LeafModel::Error(t)) => ReplyOutcomeModel::ServerError(t),
            _ => ReplyOutcomeModel::ProtocolViolation,
        },
    }
}

/// Interprets the reply frame for the command it answers.
pub fn interpret_reply(cmd: &Command, reply: WireFrame) -> (r: ReplyOutcome)
    ensures
        r.model() == spec_reply_outcome(cmd.model(), reply.model()),
{
    match cmd {
        Command::Get { .. } => match reply {
            WireFrame::Bulk(b) => ReplyOutcome::GetFound(b),
            WireFrame::Null => ReplyOutcome::GetMissing,
            WireFrame::Error(t) => ReplyOutcome::ServerError(t),
            _ => ReplyOutcome::ProtocolViolation,
        },
        Command::Put { .. } => match reply {
            WireFrame::Simple(s) => {
                if s.len() == 2 && s[0] == 79 && s[1] == 75 {
                    assert(s@ =~= ok_text());
                    ReplyOutcome::SetDone
                } else {
                    proof {
                        if s@ == ok_text() {
                            assert(s@.len() == 2);
                            assert(s@[0] == 79 && s@[1] == 75);
                        }
                    }
                    ReplyOutcome::ProtocolViolation
                }
            },
            WireFrame::Error(t) => ReplyOutcome::ServerError(t),
            _ => ReplyOutcome::ProtocolViolation,
        },
    }
}

/// The bounded FIFO of submissions not yet answered: each entry pairs the
/// caller's ticket with its command, in submission order.
pub struct PendingQueue {
    slots: Vec<(u64, Command)>,
}

impl View for PendingQueue {
    type V = Seq<(u64, CommandModel)>;

    closed spec fn view(&self) -> Seq<(u64, CommandModel)> {
        Seq::new(self.slots@.len(), |i: int| (self.slots@[i].0, self.slots@[i].1.model()))
    }
}

impl PendingQueue {
    pub fn new() -> (q: PendingQueue)
        ensures
            q@ == Seq::<(u64, CommandModel)>::empty(),
    {
        let q = PendingQueue { slots: Vec::new() };
        assert(q@ =~= Seq::<(u64, CommandModel)>::empty());
        q
    }

    pub fn len(&self) -> (n: usize)
        ensures
            n == self@.len(),
    {
        self.slots.len()
    }

    /// Appends a submission when there is room; a full queue hands the
    /// command back, and the caller waits — backpressure, not loss.
    pub fn submit(&mut self, ticket: u64, cmd: Command) -> (r: Result<(), (u64, Command)>)
        ensures
            old(self)@.len() < MUX_CAPACITY ==> r is Ok && final(self)@ == old(self)@.push(
                (ticket, cmd.model()),
            ),
            old(self)@.len() >= MUX_CAPACITY ==> (r matches Err(e) && e.0 == ticket && e.1 == cmd)
                && final(self)@ == old(self)@,
    {
        if self.slots.len() < MUX_CAPACITY {
            let ghost cm = cmd.model();
            self.slots.push((ticket, cmd));
            assert(self@ =~= old(self)@.push((ticket, cm)));
            Ok(())
        } else {
            Err((ticket, cmd))
        }
    }

    /// Removes and returns the oldest submission; the worker serves the
    /// queue strictly in submission order.
    pub fn take_next(&mut self) -> (r: Option<(u64, Command)>)
        ensures
            old(self)@.len() == 0 ==> r is None && final(self)@ == old(self)@,
            old(self)@.len() > 0 ==> (r matches Some(p) && (p.0, p.1.model()) == old(self)@[0])
                && final(self)@ == old(self)@.skip(1),
    {
        if self.slots.len() == 0 {
            None
        } else {
            let p = self.slots.remove(0);
            assert(self@ =~= old(self)@.skip(1));
            Some(p)
        }
    }
}

/// Submission order is serving order, for every queue and every position:
/// once the worker has taken the first `j` submissions, the submission
/// made `j`-th stands at the head, so the next reply is paired with that
/// caller's ticket and never with a later one. `take_next` ensures each
/// step leaves exactly the `skip(1)` of the queue, so this covers the
/// whole run by induction; the interleaving itself — send one request,
/// read its reply, only then take the next — is the worker loop's, with
/// the transport outside the library.
pub proof fn lemma_served_in_submission_order(q: Seq<(u64, CommandModel)>, j: int)
    requires
        0 <= j < q.len(),
    ensures
        q.skip(j)[0] == q[j],
        q.skip(j).skip(1) == q.skip(j + 1),
{
    assert(q.skip(j).skip(1) =~= q.skip(j + 1));
}

/// One worker step after a reply frame arrived: the reply is paired with
/// the ticket at the queue head — the exact caller whose command was sent
/// — never with any later submission.
pub fn pair_reply(pending: &mut PendingQueue, reply: WireFrame) -> (r: Option<(u64, ReplyOutcome)>)
    ensures
        old(pending)@.len() == 0 ==> r is None && final(pending)@ == old(pending)@,
        old(pending)@.len() > 0 ==> (r matches Some(p) && p.0 == old(pending)@[0].0
            && p.1.model() == spec_reply_outcome(old(pending)@[0].1, reply.model()))
            && final(pending)@ == old(pending)@.skip(1),
{
    match pending.take_next() {
        None => None,
        Some((ticket, cmd)) => {
            let out = interpret_reply(&cmd, reply);
            Some((ticket, out))
        },
    }
}

} // verus!
