use streams_subscriber::codec::b64_encode;
use streams_subscriber::report::{strip_backslashes, Reporter};
use streams_subscriber::session::{PacketOutcome, SignedPacket, Subscriber};

#[test]
fn strip_removes_every_backslash() {
    assert_eq!(strip_backslashes(&b"a\\b\\\\c".to_vec()), b"abc".to_vec());
    assert_eq!(strip_backslashes(&b"plain".to_vec()), b"plain".to_vec());
    assert_eq!(strip_backslashes(&Vec::new()), Vec::<u8>::new());
}

#[test]
fn initial_drain_shows_everything_and_counts() {
    let mut rep = Reporter::new();
    assert_eq!(rep.prev_count, 0);
    let msgs = vec![b"one\\x".to_vec(), b"two".to_vec()];
    let shown = rep.initial_drain(&msgs);
    assert_eq!(shown, vec![b"onex".to_vec(), b"two".to_vec()]);
    assert_eq!(rep.prev_count, 2);
}

#[test]
fn backlog_with_an_absent_payload_shows_two_and_counts_two() {
    // Three fetchable messages, the second with an empty masked payload:
    // the initial drain shows exactly two, in order, and counts two.
    let sub = Subscriber::new(
        b"https://example-node".to_vec(),
        b"abcXYZ:tag1".to_vec(),
        None,
    )
    .unwrap();
    let packets = vec![
        PacketOutcome::Received(SignedPacket {
            public_payload: Vec::new(),
            masked_payload: b64_encode(&b"first".to_vec()),
        }),
        PacketOutcome::Received(SignedPacket {
            public_payload: Vec::new(),
            masked_payload: Vec::new(),
        }),
        PacketOutcome::Received(SignedPacket {
            public_payload: Vec::new(),
            masked_payload: b64_encode(&b"third".to_vec()),
        }),
    ];
    let msgs = sub.read_all_masked(&packets);
    let mut rep = Reporter::new();
    let shown = rep.initial_drain(&msgs);
    assert_eq!(shown, vec![b"first".to_vec(), b"third".to_vec()]);
    assert_eq!(rep.prev_count, 2);
}

#[test]
fn unchanged_length_shows_nothing() {
    let mut rep = Reporter::new();
    rep.initial_drain(&vec![b"a".to_vec(), b"b".to_vec()]);
    let shown = rep.on_poll(&vec![b"a".to_vec(), b"b".to_vec()]);
    assert_eq!(shown, None);
    assert_eq!(rep.prev_count, 2);
}

#[test]
fn one_new_arrival_shows_only_the_last() {
    let mut rep = Reporter::new();
    rep.initial_drain(&vec![b"a".to_vec(), b"b".to_vec()]);
    let shown = rep.on_poll(&vec![b"a".to_vec(), b"b".to_vec(), b"c\\d".to_vec()]);
    assert_eq!(shown, Some(b"cd".to_vec()));
    assert_eq!(rep.prev_count, 3);
}

#[test]
fn several_new_arrivals_still_show_only_the_last() {
    let mut rep = Reporter::new();
    rep.initial_drain(&vec![b"a".to_vec()]);
    let shown = rep.on_poll(&vec![b"a".to_vec(), b"b".to_vec(), b"c".to_vec()]);
    assert_eq!(shown, Some(b"c".to_vec()));
    assert_eq!(rep.prev_count, 3);
}

#[test]
fn empty_poll_shows_nothing() {
    let mut rep = Reporter::new();
    rep.initial_drain(&vec![b"a".to_vec()]);
    let shown = rep.on_poll(&Vec::new());
    assert_eq!(shown, None);
    assert_eq!(rep.prev_count, 0);
}
