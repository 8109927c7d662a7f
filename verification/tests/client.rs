use mini_kv::command::Command;
use mini_kv::conn::{FrameStep, ReadBuffer};
use mini_kv::frame::{encode, WireFrame};
use mini_kv::handler::handle_frame;
use mini_kv::mux::{
    interpret_reply, pair_reply, request_frame, PendingQueue, ReplyOutcome, MUX_CAPACITY,
};
use mini_kv::store::KeyValueStore;

fn get(key: &[u8]) -> Command {
    Command::Get { key: key.to_vec() }
}

fn put(key: &[u8], value: &[u8]) -> Command {
    Command::Put { key: key.to_vec(), value: value.to_vec() }
}

#[test]
fn request_frames_match_wire_format() {
    let f = request_frame(get(b"hello"));
    assert_eq!(encode(&f).unwrap(), b"*2\r\n$3\r\nget\r\n$5\r\nhello\r\n".to_vec());
    let f = request_frame(put(b"foo", b"bar"));
    assert_eq!(encode(&f).unwrap(), b"*3\r\n$3\r\nset\r\n$3\r\nfoo\r\n$3\r\nbar\r\n".to_vec());
}

#[test]
fn replies_are_interpreted_per_command() {
    let g = get(b"k");
    let s = put(b"k", b"v");
    assert_eq!(
        interpret_reply(&g, WireFrame::Bulk(b"v".to_vec())),
        ReplyOutcome::GetFound(b"v".to_vec())
    );
    assert_eq!(interpret_reply(&g, WireFrame::Null), ReplyOutcome::GetMissing);
    assert_eq!(
        interpret_reply(&g, WireFrame::Error(b"ERR x".to_vec())),
        ReplyOutcome::ServerError(b"ERR x".to_vec())
    );
    assert_eq!(
        interpret_reply(&g, WireFrame::Simple(b"OK".to_vec())),
        ReplyOutcome::ProtocolViolation
    );
    assert_eq!(interpret_reply(&s, WireFrame::Simple(b"OK".to_vec())), ReplyOutcome::SetDone);
    assert_eq!(
        interpret_reply(&s, WireFrame::Simple(b"ok".to_vec())),
        ReplyOutcome::ProtocolViolation
    );
    assert_eq!(
        interpret_reply(&s, WireFrame::Error(b"ERR y".to_vec())),
        ReplyOutcome::ServerError(b"ERR y".to_vec())
    );
    assert_eq!(interpret_reply(&s, WireFrame::Null), ReplyOutcome::ProtocolViolation);
}

#[test]
fn queue_is_fifo_and_bounded() {
    let mut q = PendingQueue::new();
    assert_eq!(q.len(), 0);
    assert!(q.take_next().is_none());

    for i in 0..MUX_CAPACITY {
        let r = q.submit(i as u64, get(format!("k{}", i).as_bytes()));
        assert!(r.is_ok());
    }
    assert_eq!(q.len(), MUX_CAPACITY);

    // a full queue applies backpressure: the submission is handed back
    match q.submit(99, get(b"late")) {
        Err((ticket, cmd)) => {
            assert_eq!(ticket, 99);
            assert_eq!(cmd, get(b"late"));
        },
        Ok(()) => panic!("a full queue must not accept more"),
    }
    assert_eq!(q.len(), MUX_CAPACITY);

    // drained strictly in submission order
    for i in 0..MUX_CAPACITY {
        let (ticket, cmd) = q.take_next().expect("queue should not be empty yet");
        assert_eq!(ticket, i as u64);
        assert_eq!(cmd, get(format!("k{}", i).as_bytes()));
    }
    assert!(q.take_next().is_none());
}

#[test]
fn replies_reach_their_own_callers_in_order() {
    // two independent callers share one connection: a GET and a SET
    let mut q = PendingQueue::new();
    q.submit(7, get(b"hello")).unwrap();
    q.submit(8, put(b"foo", b"bar")).unwrap();

    // the worker serves the queue head first and pairs its reply with
    // ticket 7, never with 8
    let (ticket, outcome) = pair_reply(&mut q, WireFrame::Bulk(b"world".to_vec())).unwrap();
    assert_eq!(ticket, 7);
    assert_eq!(outcome, ReplyOutcome::GetFound(b"world".to_vec()));

    let (ticket, outcome) = pair_reply(&mut q, WireFrame::Simple(b"OK".to_vec())).unwrap();
    assert_eq!(ticket, 8);
    assert_eq!(outcome, ReplyOutcome::SetDone);

    assert!(pair_reply(&mut q, WireFrame::Null).is_none());
}

#[test]
fn full_exchange_over_one_shared_connection() {
    // Two callers submit concurrently against one connection; the worker
    // serializes them. Both directions run through the real codec.
    let mut store = KeyValueStore::new(4);
    store.set(b"hello".to_vec(), b"world".to_vec());

    let mut q = PendingQueue::new();
    q.submit(1, put(b"foo", b"bar")).unwrap();
    q.submit(2, get(b"hello")).unwrap();

    let mut wire_to_server: Vec<u8> = Vec::new();
    wire_to_server.extend_from_slice(&encode(&request_frame(put(b"foo", b"bar"))).unwrap());
    wire_to_server.extend_from_slice(&encode(&request_frame(get(b"hello"))).unwrap());

    // server side: decode each request, execute, encode the reply
    let mut server_rb = ReadBuffer::new();
    server_rb.feed(&wire_to_server);
    let mut wire_to_client: Vec<u8> = Vec::new();
    loop {
        match server_rb.try_next() {
            FrameStep::Frame(req) => {
                let reply = handle_frame(&mut store, &req);
                wire_to_client.extend_from_slice(&encode(&reply).unwrap());
            },
            FrameStep::NeedMore => break,
            FrameStep::Corrupt => panic!("requests built by the client must be well formed"),
        }
    }

    // client side: decode each reply and deliver it to its caller
    let mut client_rb = ReadBuffer::new();
    client_rb.feed(&wire_to_client);
    let mut delivered: Vec<(u64, ReplyOutcome)> = Vec::new();
    loop {
        match client_rb.try_next() {
            FrameStep::Frame(reply) => {
                delivered.push(pair_reply(&mut q, reply).expect("a caller must be pending"));
            },
            FrameStep::NeedMore => break,
            FrameStep::Corrupt => panic!("replies built by the server must be well formed"),
        }
    }

    assert_eq!(
        delivered,
        vec![(1, ReplyOutcome::SetDone), (2, ReplyOutcome::GetFound(b"world".to_vec()))]
    );
    assert_eq!(store.get(&b"foo".to_vec()), Some(b"bar".to_vec()));
}
