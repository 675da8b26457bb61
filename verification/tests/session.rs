use streams_subscriber::codec::{b64_encode, DecodeError};
use streams_subscriber::config::ConfigError;
use streams_subscriber::session::{
    batch_continues, BatchOutcome, Channel, FetchError, PacketOutcome, PollError, SignedPacket,
    Subscriber,
};

fn connected_channel() -> Channel {
    let mut ch = Channel::new(
        b"https://example-node".to_vec(),
        b"abcXYZ".to_vec(),
        b"tag1".to_vec(),
        None,
    );
    ch.connect(true).unwrap();
    ch
}

fn packet(masked: &[u8]) -> PacketOutcome {
    PacketOutcome::Received(SignedPacket {
        public_payload: Vec::new(),
        masked_payload: masked.to_vec(),
    })
}

#[test]
fn new_derives_announcement_link() {
    let ch = Channel::new(
        b"https://example-node".to_vec(),
        b"abcXYZ".to_vec(),
        b"tag1".to_vec(),
        None,
    );
    assert_eq!(ch.announcement_link, b"abcXYZ:tag1".to_vec());
    assert_eq!(ch.channel_address, b"abcXYZ".to_vec());
    assert_eq!(ch.announcement_tag, b"tag1".to_vec());
    assert!(!ch.connected);
    assert!(ch.subscription_link.is_empty());
}

#[test]
fn message_link_joins_address_and_id() {
    let ch = connected_channel();
    assert_eq!(ch.message_link(&b"msg7".to_vec()), b"abcXYZ:msg7".to_vec());
}

#[test]
fn subscriber_splits_argument_at_first_colon() {
    let sub = Subscriber::new(
        b"https://example-node".to_vec(),
        b"abcXYZ:tag1".to_vec(),
        None,
    )
    .unwrap();
    assert_eq!(sub.channel_subscriber.channel_address, b"abcXYZ".to_vec());
    assert_eq!(sub.channel_subscriber.announcement_tag, b"tag1".to_vec());
    assert_eq!(sub.channel_subscriber.announcement_link, b"abcXYZ:tag1".to_vec());
}

#[test]
fn subscriber_rejects_argument_without_colon() {
    let r = Subscriber::new(b"https://example-node".to_vec(), b"abcXYZ".to_vec(), None);
    assert!(matches!(r, Err(ConfigError::MissingSeparator)));
}

#[test]
fn poll_before_connect_fails_fast() {
    let ch = Channel::new(
        b"https://example-node".to_vec(),
        b"abcXYZ".to_vec(),
        b"tag1".to_vec(),
        None,
    );
    assert_eq!(ch.get_next_message(&Vec::new()), Err(PollError::NotConnected));
}

#[test]
fn connect_then_poll_succeeds() {
    let mut ch = Channel::new(
        b"https://example-node".to_vec(),
        b"abcXYZ".to_vec(),
        b"tag1".to_vec(),
        None,
    );
    let token = ch.connect(true).unwrap();
    assert!(token.is_empty());
    assert!(ch.connected);
    assert_eq!(ch.get_next_message(&Vec::new()), Ok(Vec::new()));
}

#[test]
fn failed_announcement_leaves_session_disconnected() {
    let mut ch = Channel::new(
        b"https://example-node".to_vec(),
        b"abcXYZ".to_vec(),
        b"tag1".to_vec(),
        None,
    );
    assert!(ch.connect(false).is_err());
    assert!(!ch.connected);
}

#[test]
fn poll_concatenates_batches_up_to_first_empty() {
    let ch = connected_channel();
    let batches = vec![
        BatchOutcome::Batch(vec![b"id1".to_vec(), b"id2".to_vec()]),
        BatchOutcome::Batch(vec![b"id3".to_vec()]),
        BatchOutcome::Batch(Vec::new()),
        BatchOutcome::Batch(vec![b"id4".to_vec()]),
    ];
    assert_eq!(
        ch.get_next_message(&batches),
        Ok(vec![b"id1".to_vec(), b"id2".to_vec(), b"id3".to_vec()])
    );
}

#[test]
fn poll_stops_asking_after_first_empty_batch() {
    assert!(batch_continues(&BatchOutcome::Batch(vec![b"id1".to_vec()])));
    assert!(!batch_continues(&BatchOutcome::Batch(Vec::new())));
    assert!(!batch_continues(&BatchOutcome::TransportFailed));
}

#[test]
fn poll_fails_whole_on_transport_failure() {
    let ch = connected_channel();
    let batches = vec![
        BatchOutcome::Batch(vec![b"id1".to_vec()]),
        BatchOutcome::TransportFailed,
    ];
    assert_eq!(ch.get_next_message(&batches), Err(PollError::Transport));
    assert_eq!(
        ch.get_next_message(&vec![BatchOutcome::TransportFailed]),
        Err(PollError::Transport)
    );
}

#[test]
fn read_signed_decodes_masked_payload() {
    let ch = connected_channel();
    let enc = b64_encode(&b"hello".to_vec());
    assert_eq!(ch.read_signed(&packet(&enc)), Ok(Some(b"hello".to_vec())));
}

#[test]
fn read_signed_empty_masked_payload_is_absent() {
    let ch = connected_channel();
    assert_eq!(ch.read_signed(&packet(b"")), Ok(None));
}

#[test]
fn read_signed_failures() {
    let ch = connected_channel();
    assert_eq!(
        ch.read_signed(&PacketOutcome::TransportFailed),
        Err(FetchError::ProtocolError)
    );
    assert_eq!(
        ch.read_signed(&packet(b"!!")),
        Err(FetchError::DecodeError(DecodeError::InvalidEncoding))
    );
    assert_eq!(
        ch.read_signed(&packet(b"_w")),
        Err(FetchError::DecodeError(DecodeError::InvalidText))
    );
}

#[test]
fn drain_skips_absent_payloads_and_keeps_order() {
    let sub = Subscriber::new(
        b"https://example-node".to_vec(),
        b"abcXYZ:tag1".to_vec(),
        None,
    )
    .unwrap();
    let packets = vec![
        packet(&b64_encode(&b"msg one".to_vec())),
        packet(b""),
        packet(&b64_encode(&b"msg three".to_vec())),
    ];
    let msgs = sub.read_all_masked(&packets);
    assert_eq!(msgs, vec![b"msg one".to_vec(), b"msg three".to_vec()]);
}

#[test]
fn drain_skips_failed_single_messages() {
    let sub = Subscriber::new(
        b"https://example-node".to_vec(),
        b"abcXYZ:tag1".to_vec(),
        None,
    )
    .unwrap();
    let packets = vec![
        packet(&b64_encode(&b"kept".to_vec())),
        PacketOutcome::TransportFailed,
        packet(b"!!"),
    ];
    assert_eq!(sub.read_all_masked(&packets), vec![b"kept".to_vec()]);
}
