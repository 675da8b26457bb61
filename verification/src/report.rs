//! Incremental delivery: every message of the first drain is shown once,
//! then each later poll shows only the newest arrival, detected by
//! comparing the poll's length with the count kept from the poll before.

use vstd::prelude::*;

verus! {

/// A message as it is shown: with every literal backslash removed.
pub open spec fn strip_spec(s: Seq<u8>) -> Seq<u8>
    decreases s.len(),
{
    if s.len() == 0 {
        Seq::empty()
    } else {
        (if s[0] == 92 {
            Seq::empty()
        } else {
            seq![s[0]]
        }) + strip_spec(s.skip(1))
    }
}

/// Removes every literal backslash (byte 92) from a message.
pub fn strip_backslashes(msg: &Vec<u8>) -> (r: Vec<u8>)
    ensures
        r@ == strip_spec(msg@),
{
    let mut out: Vec<u8> = Vec::new();
    let mut i: usize = 0;
    proof {
        assert(msg@.skip(0) =~= msg@);
        assert(Seq::<u8>::empty() + strip_spec(msg@) =~= strip_spec(msg@));
    }
    while i < msg.len()
        invariant
            i <= msg.len(),
            strip_spec(msg@) == out@ + strip_spec(msg@.skip(i as int)),
        decreases msg.len() - i,
    {
        let ghost t = msg@.skip(i as int);
        let ghost pre = out@;
        proof {
            assert(t[0] == msg@[i as int]);
            assert(t.skip(1) =~= msg@.skip(i + 1));
        }
        if msg[i] != 92 {
            out.push(msg[i]);
            proof {
                assert(out@ =~= pre + seq![t[0]]);
                assert(pre + (seq![t[0]] + strip_spec(msg@.skip(i + 1))) =~= out@ + strip_spec(
                    msg@.skip(i + 1),
                ));
            }
        } else {
            proof {
                assert(pre + (Seq::<u8>::empty() + strip_spec(msg@.skip(i + 1))) =~= pre
                    + strip_spec(msg@.skip(i + 1)));
            }
        }
        i = i + 1;
    }
    proof {
        assert(msg@.skip(msg@.len() as int) =~= Seq::<u8>::empty());
        assert(out@ + Seq::<u8>::empty() =~= out@);
    }
    out
}

/// What a steady-state poll shows, given the count kept from the poll
/// before: nothing when the length is unchanged or the poll is empty,
/// else only the last message, stripped for display.
pub open spec fn emit_spec(prev: nat, m: Seq<Seq<u8>>) -> Option<Seq<u8>> {
    if m.len() != prev && m.len() > 0 {
        Some(strip_spec(m.last()))
    } else {
        None
    }
}

/// When a poll brings as many messages as the one before, nothing at
/// all is shown.
pub proof fn lemma_steady_state_quiet(prev: nat, m: Seq<Seq<u8>>)
    requires
        m.len() == prev,
    ensures
        emit_spec(prev, m) is None,
{
}

/// When exactly one message arrived since the poll before, exactly the
/// last message of the poll is shown — even if more had arrived, only
/// the last one would be.
pub proof fn lemma_one_new_arrival(prev: nat, m: Seq<Seq<u8>>)
    requires
        m.len() == prev + 1,
    ensures
        emit_spec(prev, m) == Some(strip_spec(m.last())),
{
}

/// Keeps the count of messages delivered by the poll before, the sole
/// state from which "new since last time" is decided.
pub struct Reporter {
    pub prev_count: usize,
}

impl Reporter {
    /// Before the first drain nothing has been delivered.
    pub fn new() -> (r: Reporter)
        ensures
            r.prev_count == 0,
    {
        Reporter { prev_count: 0 }
    }

    /// The first drain: every message is shown once, in poll order, each
    /// stripped for display, and the count starts from its length.
    pub fn initial_drain(&mut self, msgs: &Vec<Vec<u8>>) -> (shown: Vec<Vec<u8>>)
        ensures
            final(self).prev_count == msgs@.len(),
            shown.deep_view() == msgs.deep_view().map_values(|m: Seq<u8>| strip_spec(m)),
    {
        let mut out: Vec<Vec<u8>> = Vec::new();
        let mut i: usize = 0;
        proof {
            assert(msgs.deep_view().take(0) =~= Seq::<Seq<u8>>::empty());
            assert(out.deep_view() =~~= Seq::<Seq<u8>>::empty().map_values(
                |m: Seq<u8>| strip_spec(m),
            ));
        }
        while i < msgs.len()
            invariant
                i <= msgs.len(),
                out.deep_view() == msgs.deep_view().take(i as int).map_values(
                    |m: Seq<u8>| strip_spec(m),
                ),
            decreases msgs.len() - i,
        {
            let ghost pre = out.deep_view();
            out.push(strip_backslashes(&msgs[i]));
            proof {
                assert(out.deep_view() =~~= pre.push(strip_spec(msgs@[i as int]@)));
                assert(msgs.deep_view().take(i + 1) =~~= msgs.deep_view().take(i as int).push(
                    msgs@[i as int]@,
                ));
                assert(msgs.deep_view().take(i + 1).map_values(|m: Seq<u8>| strip_spec(m)) =~= msgs
                    .deep_view().take(i as int).map_values(|m: Seq<u8>| strip_spec(m)).push(
                    strip_spec(msgs@[i as int]@),
                ));
            }
            i = i + 1;
        }
        proof {
            assert(msgs.deep_view().take(msgs@.len() as int) =~= msgs.deep_view());
        }
        self.prev_count = msgs.len();
        out
    }

    /// One steady-state poll: shows at most the newest arrival, and the
    /// count is set to the poll's length either way.
    pub fn on_poll(&mut self, msgs: &Vec<Vec<u8>>) -> (shown: Option<Vec<u8>>)
        ensures
            final(self).prev_count == msgs@.len(),
            match shown {
                Some(m) => emit_spec(old(self).prev_count as nat, msgs.deep_view()) == Some(m@),
                None => emit_spec(old(self).prev_count as nat, msgs.deep_view()) is None,
            },
    {
        let changed = msgs.len() != self.prev_count;
        self.prev_count = msgs.len();
        if changed && msgs.len() > 0 {
            let last = strip_backslashes(&msgs[msgs.len() - 1]);
            proof {
                assert(msgs.deep_view().last() == msgs@[msgs@.len() - 1]@);
            }
            Some(last)
        } else {
            None
        }
    }
}

} // verus!
