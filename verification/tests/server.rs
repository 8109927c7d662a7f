use mini_kv::command::{from_frame, Command};
use mini_kv::conn::{EofOutcome, FrameStep, ReadBuffer};
use mini_kv::frame::{encode, WireFrame};
use mini_kv::handler::handle_frame;
use mini_kv::store::KeyValueStore;

fn set_frame(key: &[u8], value: &[u8]) -> WireFrame {
    WireFrame::Array(vec![
        WireFrame::Simple(b"set".to_vec()),
        WireFrame::Bulk(key.to_vec()),
        WireFrame::Bulk(value.to_vec()),
    ])
}

fn get_frame(key: &[u8]) -> WireFrame {
    WireFrame::Array(vec![
        WireFrame::Simple(b"get".to_vec()),
        WireFrame::Bulk(key.to_vec()),
    ])
}

#[test]
fn set_then_get_round_trip() {
    let mut store = KeyValueStore::new(4);
    let reply = handle_frame(&mut store, &set_frame(b"hello", b"world"));
    assert_eq!(reply, WireFrame::Simple(b"OK".to_vec()));
    let reply = handle_frame(&mut store, &get_frame(b"hello"));
    assert_eq!(reply, WireFrame::Bulk(b"world".to_vec()));
    let reply = handle_frame(&mut store, &get_frame(b"missing"));
    assert_eq!(reply, WireFrame::Null);
}

#[test]
fn sets_on_distinct_keys_are_both_visible() {
    // in either order of application
    let mut store = KeyValueStore::new(4);
    handle_frame(&mut store, &set_frame(b"k1", b"v1"));
    handle_frame(&mut store, &set_frame(b"k2", b"v2"));
    assert_eq!(handle_frame(&mut store, &get_frame(b"k1")), WireFrame::Bulk(b"v1".to_vec()));
    assert_eq!(handle_frame(&mut store, &get_frame(b"k2")), WireFrame::Bulk(b"v2".to_vec()));

    let mut store = KeyValueStore::new(4);
    handle_frame(&mut store, &set_frame(b"k2", b"v2"));
    handle_frame(&mut store, &set_frame(b"k1", b"v1"));
    assert_eq!(handle_frame(&mut store, &get_frame(b"k1")), WireFrame::Bulk(b"v1".to_vec()));
    assert_eq!(handle_frame(&mut store, &get_frame(b"k2")), WireFrame::Bulk(b"v2".to_vec()));
}

#[test]
fn repeated_set_on_one_key_last_wins() {
    let mut store = KeyValueStore::new(8);
    handle_frame(&mut store, &set_frame(b"key", b"first"));
    handle_frame(&mut store, &set_frame(b"key", b"second"));
    handle_frame(&mut store, &set_frame(b"key", b"third"));
    assert_eq!(handle_frame(&mut store, &get_frame(b"key")), WireFrame::Bulk(b"third".to_vec()));
}

#[test]
fn store_get_and_set_directly() {
    let mut store = KeyValueStore::new(2);
    assert_eq!(store.get(&b"absent".to_vec()), None);
    store.set(b"a".to_vec(), b"1".to_vec());
    assert_eq!(store.get(&b"a".to_vec()), Some(b"1".to_vec()));
    store.set(b"a".to_vec(), b"2".to_vec());
    assert_eq!(store.get(&b"a".to_vec()), Some(b"2".to_vec()));
}

#[test]
fn command_names_match_case_insensitively() {
    let mut store = KeyValueStore::new(4);
    let shout_set = WireFrame::Array(vec![
        WireFrame::Simple(b"SET".to_vec()),
        WireFrame::Bulk(b"k".to_vec()),
        WireFrame::Bulk(b"v".to_vec()),
    ]);
    assert_eq!(handle_frame(&mut store, &shout_set), WireFrame::Simple(b"OK".to_vec()));
    let mixed_get = WireFrame::Array(vec![
        WireFrame::Simple(b"GeT".to_vec()),
        WireFrame::Bulk(b"k".to_vec()),
    ]);
    assert_eq!(handle_frame(&mut store, &mixed_get), WireFrame::Bulk(b"v".to_vec()));
}

#[test]
fn unknown_command_is_recoverable() {
    let mut store = KeyValueStore::new(4);
    handle_frame(&mut store, &set_frame(b"k", b"v"));

    let unknown = WireFrame::Array(vec![
        WireFrame::Simple(b"del".to_vec()),
        WireFrame::Bulk(b"k".to_vec()),
    ]);
    let reply = handle_frame(&mut store, &unknown);
    assert_eq!(reply, WireFrame::Error(b"ERR unknown command".to_vec()));

    // the store was not touched and the connection keeps serving
    assert_eq!(handle_frame(&mut store, &get_frame(b"k")), WireFrame::Bulk(b"v".to_vec()));
}

#[test]
fn ill_shaped_frames_are_no_commands() {
    let cases = vec![
        WireFrame::Simple(b"get".to_vec()),
        WireFrame::Bulk(b"get".to_vec()),
        WireFrame::Integer(2),
        WireFrame::Null,
        WireFrame::Array(Vec::new()),
        // the name may be Simple or Bulk, but key and value must be Bulk
        WireFrame::Array(vec![
            WireFrame::Simple(b"get".to_vec()),
            WireFrame::Simple(b"k".to_vec()),
        ]),
        WireFrame::Array(vec![
            WireFrame::Integer(1),
            WireFrame::Bulk(b"k".to_vec()),
        ]),
        // a recognized verb with the wrong arity
        WireFrame::Array(vec![
            WireFrame::Simple(b"set".to_vec()),
            WireFrame::Bulk(b"k".to_vec()),
        ]),
        WireFrame::Array(vec![
            WireFrame::Simple(b"get".to_vec()),
            WireFrame::Bulk(b"k".to_vec()),
            WireFrame::Bulk(b"v".to_vec()),
        ]),
    ];
    for f in cases {
        assert!(from_frame(&f).is_err(), "frame {:?} should be no command", f);
    }
}

#[test]
fn bulk_command_names_parse_too() {
    // the wire table writes command names as Bulk strings
    match from_frame(&WireFrame::Array(vec![
        WireFrame::Bulk(b"get".to_vec()),
        WireFrame::Bulk(b"hello".to_vec()),
    ])) {
        Ok(Command::Get { key }) => assert_eq!(key, b"hello".to_vec()),
        other => panic!("expected a GET, got {:?}", other),
    }
    match from_frame(&WireFrame::Array(vec![
        WireFrame::Bulk(b"SET".to_vec()),
        WireFrame::Bulk(b"k".to_vec()),
        WireFrame::Bulk(b"v".to_vec()),
    ])) {
        Ok(Command::Put { key, value }) => {
            assert_eq!(key, b"k".to_vec());
            assert_eq!(value, b"v".to_vec());
        },
        other => panic!("expected a SET, got {:?}", other),
    }
}

#[test]
fn wire_exact_set_then_get() {
    // the spec's own byte-level example: SET hello world, then GET hello,
    // command names as Bulk strings on the wire
    let mut store = KeyValueStore::new(4);
    let mut rb = ReadBuffer::new();
    rb.feed(b"*3\r\n$3\r\nset\r\n$5\r\nhello\r\n$5\r\nworld\r\n*2\r\n$3\r\nget\r\n$5\r\nhello\r\n");
    let mut outbound: Vec<u8> = Vec::new();
    loop {
        match rb.try_next() {
            FrameStep::Frame(req) => {
                let reply = handle_frame(&mut store, &req);
                outbound.extend_from_slice(&encode(&reply).unwrap());
            },
            FrameStep::NeedMore => break,
            FrameStep::Corrupt => panic!("the spec's request bytes must be well formed"),
        }
    }
    assert_eq!(outbound, b"+OK\r\n$5\r\nworld\r\n".to_vec());
    assert_eq!(rb.on_eof(), EofOutcome::CleanClose);
}

#[test]
fn wire_exact_get_missing() {
    let mut store = KeyValueStore::new(4);
    let mut rb = ReadBuffer::new();
    rb.feed(b"*2\r\n$3\r\nget\r\n$7\r\nmissing\r\n");
    let reply = match rb.try_next() {
        FrameStep::Frame(req) => handle_frame(&mut store, &req),
        _ => panic!("a complete GET request was fed"),
    };
    assert_eq!(encode(&reply).unwrap(), b"$-1\r\n".to_vec());
    assert_eq!(store.get(&b"missing".to_vec()), None);
}

#[test]
fn recognized_commands_parse() {
    match from_frame(&get_frame(b"hello")) {
        Ok(Command::Get { key }) => assert_eq!(key, b"hello".to_vec()),
        other => panic!("expected a GET, got {:?}", other),
    }
    match from_frame(&set_frame(b"hello", b"world")) {
        Ok(Command::Put { key, value }) => {
            assert_eq!(key, b"hello".to_vec());
            assert_eq!(value, b"world".to_vec());
        },
        other => panic!("expected a SET, got {:?}", other),
    }
}
