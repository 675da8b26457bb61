//! Channel session: one subscription to one append-only channel.
//!
//! The network transport is driven by the caller; every answer it gives
//! (a batch of message identifiers, a signed packet, the announcement
//! receipt) is handed to the session as a plain value, and the session's
//! verified logic decides what follows from it.

use crate::codec::{decode_spec, unwrap_data, DecodeError};
use crate::config::ConfigError;
use vstd::prelude::*;
use vstd::utf8::valid_utf8;

verus! {

/// The announcement message could not be retrieved or validated.
#[derive(Clone, Copy, Debug, PartialEq, Eq, Structural)]
pub enum ConnectError {
    AnnouncementUnreachable,
}

/// Why one poll cycle returned no identifiers.
#[derive(Clone, Copy, Debug, PartialEq, Eq, Structural)]
pub enum PollError {
    /// Polling before a successful `connect` is a caller error and fails
    /// fast instead of silently returning nothing.
    NotConnected,
    /// A batch fetch failed; the whole poll fails, no partial result.
    Transport,
}

/// Why one message could not be fetched and decoded.
#[derive(Clone, Copy, Debug, PartialEq, Eq, Structural)]
pub enum FetchError {
    /// The signed-packet retrieval itself failed.
    ProtocolError,
    /// The packet arrived but its masked payload did not decode.
    DecodeError(DecodeError),
}

/// A signed packet as the transport hands it back: a public part and a
/// masked part, both raw bytes.
pub struct SignedPacket {
    pub public_payload: Vec<u8>,
    pub masked_payload: Vec<u8>,
}

/// One answer of the transport to "fetch the next batch of message
/// identifiers".
pub enum BatchOutcome {
    /// A batch of identifiers; an empty batch means "no more right now".
    Batch(Vec<Vec<u8>>),
    /// The batch fetch failed.
    TransportFailed,
}

/// One answer of the transport to "retrieve the signed packet at a link".
pub enum PacketOutcome {
    Received(SignedPacket),
    TransportFailed,
}

/// A link is the channel address and a tag, joined by `:` (byte 58).
pub open spec fn link_of(addr: Seq<u8>, tag: Seq<u8>) -> Seq<u8> {
    addr + seq![58u8] + tag
}

/// Joins a channel address and a tag into a link.
pub fn make_link(addr: &Vec<u8>, tag: &Vec<u8>) -> (r: Vec<u8>)
    ensures
        r@ == link_of(addr@, tag@),
{
    let mut out: Vec<u8> = Vec::new();
    let mut i: usize = 0;
    while i < addr.len()
        invariant
            i <= addr.len(),
            out@ == addr@.take(i as int),
        decreases addr.len() - i,
    {
        out.push(addr[i]);
        proof {
            assert(addr@.take(i + 1) =~= addr@.take(i as int).push(addr@[i as int]));
        }
        i = i + 1;
    }
    proof {
        assert(addr@.take(addr@.len() as int) =~= addr@);
    }
    out.push(58);
    let mut j: usize = 0;
    while j < tag.len()
        invariant
            j <= tag.len(),
            out@ == addr@ + seq![58u8] + tag@.take(j as int),
        decreases tag.len() - j,
    {
        out.push(tag[j]);
        proof {
            assert(tag@.take(j + 1) =~= tag@.take(j as int).push(tag@[j as int]));
            assert((addr@ + seq![58u8] + tag@.take(j as int)).push(tag@[j as int]) =~= addr@ + seq![58u8] + tag@.take(j + 1));
        }
        j = j + 1;
    }
    proof {
        assert(tag@.take(tag@.len() as int) =~= tag@);
    }
    out
}

/// One subscription to one channel. Holds the immutable identity (node
/// endpoint, channel address, announcement tag, seed), the derived
/// announcement link, and the connection state.
pub struct Channel {
    pub node: Vec<u8>,
    pub channel_address: Vec<u8>,
    pub announcement_tag: Vec<u8>,
    pub announcement_link: Vec<u8>,
    pub subscription_link: Vec<u8>,
    pub seed: Option<Vec<u8>>,
    pub connected: bool,
}

/// What one whole poll yields, given the transport's successive batch
/// answers: identifiers of every batch in order, up to the first empty
/// batch; `None` when a batch fetch failed before that.
pub open spec fn poll_ids_spec(bs: Seq<BatchOutcome>) -> Option<Seq<Seq<u8>>>
    decreases bs.len(),
{
    if bs.len() == 0 {
        Some(Seq::empty())
    } else {
        match bs[0] {
            BatchOutcome::TransportFailed => None,
            BatchOutcome::Batch(v) => {
                if v@.len() == 0 {
                    Some(Seq::empty())
                } else {
                    match poll_ids_spec(bs.skip(1)) {
                        Some(rest) => Some(v.deep_view() + rest),
                        None => None,
                    }
                }
            },
        }
    }
}

/// The poll so far decomposes: what the whole input yields is what is
/// already accumulated followed by what the remaining input yields.
spec fn poll_decomposes(
    whole: Option<Seq<Seq<u8>>>,
    done: Seq<Seq<u8>>,
    rest: Option<Seq<Seq<u8>>>,
) -> bool {
    match rest {
        Some(r) => whole == Some(done + r),
        None => whole is None,
    }
}

/// What fetching one message yields: the transport failure, the decode
/// failure, or the decoded text bytes (`None` for an absent payload).
pub open spec fn fetch_spec(p: PacketOutcome) -> Result<Option<Seq<u8>>, FetchError> {
    match p {
        PacketOutcome::TransportFailed => Err(FetchError::ProtocolError),
        PacketOutcome::Received(pkt) => {
            if pkt.masked_payload@.len() == 0 {
                Ok(None)
            } else {
                match decode_spec(pkt.masked_payload@) {
                    None => Err(FetchError::DecodeError(DecodeError::InvalidEncoding)),
                    Some(m) => if valid_utf8(m) {
                        Ok(Some(m))
                    } else {
                        Err(FetchError::DecodeError(DecodeError::InvalidText))
                    },
                }
            }
        },
    }
}

impl Channel {
    /// The derived announcement link is the one of the stored identity.
    pub open spec fn well_formed(self) -> bool {
        self.announcement_link@ == link_of(self.channel_address@, self.announcement_tag@)
    }

    /// Builds the session identity: stores the endpoint, address, tag and
    /// seed, derives the announcement link, and starts disconnected with
    /// an empty subscription link.
    pub fn new(
        node: Vec<u8>,
        channel_address: Vec<u8>,
        announcement_tag: Vec<u8>,
        seed_option: Option<Vec<u8>>,
    ) -> (c: Channel)
        ensures
            c.well_formed(),
            c.node@ == node@,
            c.channel_address@ == channel_address@,
            c.announcement_tag@ == announcement_tag@,
            c.seed == seed_option,
            c.subscription_link@ == Seq::<u8>::empty(),
            !c.connected,
    {
        let announcement_link = make_link(&channel_address, &announcement_tag);
        Channel {
            node,
            channel_address,
            announcement_tag,
            announcement_link,
            subscription_link: Vec::new(),
            seed: seed_option,
            connected: false,
        }
    }

    /// The link at which one message of this channel lives.
    pub fn message_link(&self, id: &Vec<u8>) -> (r: Vec<u8>)
        ensures
            r@ == link_of(self.channel_address@, id@),
    {
        make_link(&self.channel_address, id)
    }

    /// Finishes connecting, given whether the transport received and
    /// validated the announcement at `announcement_link`. On success the
    /// session is connected and hands back its subscription token; on
    /// failure nothing changes.
    pub fn connect(&mut self, announcement_received: bool) -> (r: Result<
        Vec<u8>,
        ConnectError,
    >)
        ensures
            final(self).node == old(self).node,
            final(self).channel_address == old(self).channel_address,
            final(self).announcement_tag == old(self).announcement_tag,
            final(self).announcement_link == old(self).announcement_link,
            final(self).subscription_link == old(self).subscription_link,
            final(self).seed == old(self).seed,
            final(self).connected == (old(self).connected || announcement_received),
            match r {
                Ok(token) => announcement_received && token@ == old(self).subscription_link@,
                Err(e) => !announcement_received && e == ConnectError::AnnouncementUnreachable,
            },
    {
        if announcement_received {
            self.connected = true;
            Ok(self.subscription_link.clone())
        } else {
            Err(ConnectError::AnnouncementUnreachable)
        }
    }

    /// One whole poll over the batch answers the transport gave, in the
    /// order it gave them. Polling before `connect` fails fast; a failed
    /// batch fetch fails the whole poll with no partial result; otherwise
    /// the result is every identifier up to the first empty batch, in
    /// order.
    pub fn get_next_message(&self, batches: &Vec<BatchOutcome>) -> (r: Result<
        Vec<Vec<u8>>,
        PollError,
    >)
        ensures
            !self.connected ==> r == Err::<Vec<Vec<u8>>, PollError>(PollError::NotConnected),
            self.connected ==> match r {
                Ok(ids) => poll_ids_spec(batches@) == Some(ids.deep_view()),
                Err(e) => e == PollError::Transport && poll_ids_spec(batches@) is None,
            },
    {
        if !self.connected {
            return Err(PollError::NotConnected);
        }
        let mut out: Vec<Vec<u8>> = Vec::new();
        let mut i: usize = 0;
        proof {
            assert(batches@.skip(0) =~= batches@);
            assert(out.deep_view() =~= Seq::<Seq<u8>>::empty());
            if poll_ids_spec(batches@) is Some {
                assert(Seq::<Seq<u8>>::empty() + poll_ids_spec(batches@).unwrap() =~= poll_ids_spec(
                    batches@,
                ).unwrap());
            }
        }
        while i < batches.len()
            invariant
                self.connected,
                i <= batches.len(),
                poll_decomposes(
                    poll_ids_spec(batches@),
                    out.deep_view(),
                    poll_ids_spec(batches@.skip(i as int)),
                ),
            decreases batches.len() - i,
        {
            let ghost t = batches@.skip(i as int);
            proof {
                assert(t[0] == batches@[i as int]);
                assert(t.skip(1) =~= batches@.skip(i + 1));
            }
            match &batches[i] {
                BatchOutcome::TransportFailed => {
                    proof {
                        assert(poll_ids_spec(t) is None);
                    }
                    return Err(PollError::Transport);
                },
                BatchOutcome::Batch(v) => {
                    if v.len() == 0 {
                        proof {
                            assert(poll_ids_spec(t) == Some(Seq::<Seq<u8>>::empty()));
                            assert(out.deep_view() + Seq::<Seq<u8>>::empty() =~= out.deep_view());
                        }
                        return Ok(out);
                    }
                    let ghost pre = out.deep_view();
                    let mut k: usize = 0;
                    proof {
                        assert(v.deep_view().take(0) =~= Seq::<Seq<u8>>::empty());
                        assert(pre + Seq::<Seq<u8>>::empty() =~= pre);
                    }
                    while k < v.len()
                        invariant
                            k <= v.len(),
                            out.deep_view() == pre + v.deep_view().take(k as int),
                        decreases v.len() - k,
                    {
                        out.push(v[k].clone());
                        proof {
                            assert(out.deep_view() =~~= (pre + v.deep_view().take(k as int)).push(
                                v@[k as int]@,
                            ));
                            assert(v.deep_view().take(k + 1) =~~= v.deep_view().take(
                                k as int,
                            ).push(v@[k as int]@));
                            assert(out.deep_view() =~= pre + v.deep_view().take(k + 1));
                        }
                        k = k + 1;
                    }
                    proof {
                        assert(v.deep_view().take(v@.len() as int) =~= v.deep_view());
                        assert(out.deep_view() =~= pre + v.deep_view());
                        if poll_ids_spec(batches@.skip(i + 1)) is Some {
                            let rest = poll_ids_spec(batches@.skip(i + 1)).unwrap();
                            assert(poll_ids_spec(t) == Some(v.deep_view() + rest));
                            assert(pre + (v.deep_view() + rest) =~= (pre + v.deep_view()) + rest);
                        }
                    }
                },
            }
            i = i + 1;
        }
        proof {
            assert(batches@.skip(batches@.len() as int) =~= Seq::<BatchOutcome>::empty());
            assert(poll_ids_spec(batches@.skip(batches@.len() as int)) == Some(
                Seq::<Seq<u8>>::empty(),
            ));
            assert(out.deep_view() + Seq::<Seq<u8>>::empty() =~= out.deep_view());
        }
        Ok(out)
    }

    /// Decodes one fetched packet: a transport failure is a protocol
    /// error; an empty masked payload is an absent message, not an error;
    /// anything else goes through the payload codec.
    pub fn read_signed(&self, packet: &PacketOutcome) -> (r: Result<Option<Vec<u8>>, FetchError>)
        ensures
            match r {
                Ok(None) => fetch_spec(*packet) == Ok::<Option<Seq<u8>>, FetchError>(None),
                Ok(Some(m)) => fetch_spec(*packet) == Ok::<Option<Seq<u8>>, FetchError>(
                    Some(m@),
                ),
                Err(e) => fetch_spec(*packet) == Err::<Option<Seq<u8>>, FetchError>(e),
            },
    {
        match packet {
            PacketOutcome::TransportFailed => Err(FetchError::ProtocolError),
            PacketOutcome::Received(pkt) => {
                match unwrap_data(&pkt.masked_payload) {
                    Ok(None) => Ok(None),
                    Ok(Some(m)) => Ok(Some(m)),
                    Err(e) => Err(FetchError::DecodeError(e)),
                }
            },
        }
    }
}

/// Whether, after this batch answer, the poll keeps asking the
/// transport for more: only after a non-empty batch. The first empty
/// batch — or a failure — ends the poll's calls.
pub fn batch_continues(b: &BatchOutcome) -> (r: bool)
    ensures
        r == (b matches BatchOutcome::Batch(v) && v@.len() > 0),
{
    match b {
        BatchOutcome::Batch(v) => v.len() > 0,
        BatchOutcome::TransportFailed => false,
    }
}

/// Index of the first `:` (byte 58), if any.
pub open spec fn first_colon(s: Seq<u8>) -> Option<int>
    decreases s.len(),
{
    if s.len() == 0 {
        None
    } else if s[0] == 58 {
        Some(0int)
    } else {
        match first_colon(s.skip(1)) {
            Some(i) => Some(i + 1),
            None => None,
        }
    }
}

/// `first_colon` finds exactly the first occurrence.
pub proof fn lemma_first_colon_at(s: Seq<u8>, i: int)
    requires
        0 <= i < s.len(),
        s[i] == 58,
        forall|j: int| 0 <= j < i ==> s[j] != 58,
    ensures
        first_colon(s) == Some(i),
    decreases s.len(),
{
    if i > 0 {
        assert(s[0] != 58);
        assert(s.skip(1)[i - 1] == s[i]);
        assert(forall|j: int| 0 <= j < i - 1 ==> s.skip(1)[j] == s[j + 1] && s[j + 1] != 58);
        lemma_first_colon_at(s.skip(1), i - 1);
    }
}

/// Without a `:` there is nothing to find.
pub proof fn lemma_first_colon_none(s: Seq<u8>)
    requires
        forall|j: int| 0 <= j < s.len() ==> s[j] != 58,
    ensures
        first_colon(s) is None,
    decreases s.len(),
{
    if s.len() > 0 {
        assert(forall|j: int| 0 <= j < s.skip(1).len() ==> s.skip(1)[j] == s[j + 1] && s[j + 1]
            != 58);
        lemma_first_colon_none(s.skip(1));
    }
}

/// What one whole drain yields: for each packet in order, the decoded
/// message where fetching and decoding succeeded with a present payload;
/// absent payloads and failed packets are silently skipped.
pub open spec fn drain_spec(ps: Seq<PacketOutcome>) -> Seq<Seq<u8>>
    decreases ps.len(),
{
    if ps.len() == 0 {
        Seq::empty()
    } else {
        (match fetch_spec(ps[0]) {
            Ok(Some(m)) => seq![m],
            _ => Seq::empty(),
        }) + drain_spec(ps.skip(1))
    }
}

/// The subscriber of one channel: the session, built from the raw
/// channel argument `<address>:<tag>`.
pub struct Subscriber {
    pub channel_subscriber: Channel,
}

impl Subscriber {
    /// Splits the channel argument at its first `:` into channel address
    /// and announcement tag, and builds the session identity from them.
    /// An argument without `:` is rejected.
    pub fn new(node: Vec<u8>, channel_address: Vec<u8>, seed_option: Option<Vec<u8>>) -> (r:
        Result<Subscriber, ConfigError>)
        ensures
            match r {
                Ok(sub) => first_colon(channel_address@) matches Some(i)
                    && sub.channel_subscriber.channel_address@ == channel_address@.take(i)
                    && sub.channel_subscriber.announcement_tag@ == channel_address@.skip(i + 1)
                    && sub.channel_subscriber.node@ == node@
                    && sub.channel_subscriber.seed == seed_option
                    && sub.channel_subscriber.well_formed()
                    && !sub.channel_subscriber.connected,
                Err(e) => e == ConfigError::MissingSeparator && first_colon(
                    channel_address@,
                ) is None,
            },
    {
        let mut i: usize = 0;
        while i < channel_address.len()
            invariant
                i <= channel_address.len(),
                forall|j: int| 0 <= j < i ==> channel_address@[j] != 58,
            decreases channel_address.len() - i,
        {
            if channel_address[i] == 58 {
                proof {
                    lemma_first_colon_at(channel_address@, i as int);
                }
                let mut address: Vec<u8> = Vec::new();
                let mut k: usize = 0;
                while k < i
                    invariant
                        k <= i <= channel_address.len(),
                        address@ == channel_address@.take(k as int),
                    decreases i - k,
                {
                    address.push(channel_address[k]);
                    proof {
                        assert(channel_address@.take(k + 1) =~= channel_address@.take(
                            k as int,
                        ).push(channel_address@[k as int]));
                    }
                    k = k + 1;
                }
                let mut tag: Vec<u8> = Vec::new();
                let mut m: usize = i + 1;
                while m < channel_address.len()
                    invariant
                        i + 1 <= m <= channel_address.len(),
                        tag@ == channel_address@.subrange(i + 1, m as int),
                    decreases channel_address.len() - m,
                {
                    tag.push(channel_address[m]);
                    proof {
                        assert(channel_address@.subrange(i + 1, m + 1) =~= channel_address@
                            .subrange(i + 1, m as int).push(channel_address@[m as int]));
                    }
                    m = m + 1;
                }
                proof {
                    assert(tag@ =~= channel_address@.skip(i + 1));
                }
                return Ok(
                    Subscriber {
                        channel_subscriber: Channel::new(node, address, tag, seed_option),
                    },
                );
            }
            i = i + 1;
        }
        proof {
            lemma_first_colon_none(channel_address@);
        }
        Err(ConfigError::MissingSeparator)
    }

    /// Reads every message of one poll cycle: decodes each fetched packet
    /// in order and keeps the present payloads; absent payloads and
    /// failed single messages are skipped, never shown garbled.
    pub fn read_all_masked(&self, packets: &Vec<PacketOutcome>) -> (msgs: Vec<Vec<u8>>)
        ensures
            msgs.deep_view() == drain_spec(packets@),
    {
        let mut out: Vec<Vec<u8>> = Vec::new();
        let mut i: usize = 0;
        proof {
            assert(packets@.skip(0) =~= packets@);
            assert(out.deep_view() =~= Seq::<Seq<u8>>::empty());
            assert(Seq::<Seq<u8>>::empty() + drain_spec(packets@) =~= drain_spec(packets@));
        }
        while i < packets.len()
            invariant
                i <= packets.len(),
                drain_spec(packets@) == out.deep_view() + drain_spec(packets@.skip(i as int)),
            decreases packets.len() - i,
        {
            let ghost t = packets@.skip(i as int);
            let ghost pre = out.deep_view();
            proof {
                assert(t[0] == packets@[i as int]);
                assert(t.skip(1) =~= packets@.skip(i + 1));
            }
            match self.channel_subscriber.read_signed(&packets[i]) {
                Ok(Some(m)) => {
                    out.push(m);
                    proof {
                        assert(out.deep_view() =~~= pre.push(
                            (match fetch_spec(t[0]) {
                                Ok(Some(m0)) => m0,
                                _ => Seq::empty(),
                            }),
                        ));
                        assert(pre.push(
                            (match fetch_spec(t[0]) {
                                Ok(Some(m0)) => m0,
                                _ => Seq::empty(),
                            }),
                        ) =~= pre + (match fetch_spec(t[0]) {
                            Ok(Some(m0)) => seq![m0],
                            _ => Seq::<Seq<u8>>::empty(),
                        }));
                    }
                },
                _ => {
                    proof {
                        assert((match fetch_spec(t[0]) {
                            Ok(Some(m0)) => seq![m0],
                            _ => Seq::<Seq<u8>>::empty(),
                        }) =~= Seq::<Seq<u8>>::empty());
                        assert(pre + Seq::<Seq<u8>>::empty() =~= pre);
                    }
                },
            }
            i = i + 1;
        }
        proof {
            assert(packets@.skip(packets@.len() as int) =~= Seq::<PacketOutcome>::empty());
            assert(out.deep_view() + Seq::<Seq<u8>>::empty() =~= out.deep_view());
        }
        out
    }
}

/// The identifiers of a run of batches, concatenated in order.
pub open spec fn concat_batches(bs: Seq<BatchOutcome>) -> Seq<Seq<u8>>
    decreases bs.len(),
{
    if bs.len() == 0 {
        Seq::empty()
    } else {
        (match bs[0] {
            BatchOutcome::Batch(v) => v.deep_view(),
            BatchOutcome::TransportFailed => Seq::empty(),
        }) + concat_batches(bs.skip(1))
    }
}

/// A poll over batches `b1 .. bn, empty` yields exactly the identifiers
/// of `b1 .. bn` concatenated in order, whatever follows the empty
/// batch: the poll stops there.
pub proof fn lemma_poll_concat(bs: Seq<BatchOutcome>, n: int)
    requires
        0 <= n < bs.len(),
        forall|i: int| 0 <= i < n ==> ((#[trigger] bs[i]) matches BatchOutcome::Batch(v) && v@.len()
            > 0),
        bs[n] matches BatchOutcome::Batch(v) && v@.len() == 0,
    ensures
        poll_ids_spec(bs) == Some(concat_batches(bs.take(n))),
    decreases n,
{
    if n == 0 {
        assert(bs.take(0) =~= Seq::<BatchOutcome>::empty());
        assert(concat_batches(bs.take(0)) =~= Seq::<Seq<u8>>::empty());
    } else {
        assert(bs[0] matches BatchOutcome::Batch(v) && v@.len() > 0);
        assert(bs.skip(1)[n - 1] == bs[n]);
        assert(forall|i: int| 0 <= i < n - 1 ==> bs.skip(1)[i] == bs[i + 1]);
        lemma_poll_concat(bs.skip(1), n - 1);
        let v0 = bs[0]->Batch_0;
        assert(bs.take(n)[0] == bs[0]);
        assert(bs.take(n).skip(1) =~= bs.skip(1).take(n - 1));
        assert(concat_batches(bs.take(n)) == v0.deep_view() + concat_batches(
            bs.skip(1).take(n - 1),
        ));
    }
}

/// A batch fetch failure before any empty batch fails the whole poll:
/// nothing is returned, no partial accumulation leaks out.
pub proof fn lemma_poll_transport_failure(bs: Seq<BatchOutcome>, n: int)
    requires
        0 <= n < bs.len(),
        forall|i: int| 0 <= i < n ==> ((#[trigger] bs[i]) matches BatchOutcome::Batch(v) && v@.len()
            > 0),
        bs[n] is TransportFailed,
    ensures
        poll_ids_spec(bs) is None,
    decreases n,
{
    if n > 0 {
        assert(bs[0] matches BatchOutcome::Batch(v) && v@.len() > 0);
        assert(bs.skip(1)[n - 1] == bs[n]);
        assert(forall|i: int| 0 <= i < n - 1 ==> bs.skip(1)[i] == bs[i + 1]);
        lemma_poll_transport_failure(bs.skip(1), n - 1);
    }
}

} // verus!
