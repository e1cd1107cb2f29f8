use crate::did::Did;
use vstd::prelude::*;

verus! {

/// A raw event that a connection puts on the registry's event channel.
pub enum Event {
    /// An inbound message: the payload bytes as they came off the wire.
    ReceiveMsg(Vec<u8>),
    /// A connection to the peer at this address was registered.
    RegisterTransport(Did),
    /// The connection to the peer at this address was closed.
    ConnectClosed(Did),
}

/// A relay message envelope: one application message with the metadata
/// that the relay layers route it by.
pub struct MessageRelay {
    /// The identifier of the message.
    pub id: String,
    /// What kind of message the content is.
    pub kind: String,
    /// The application message, opaque to this layer.
    pub content: Vec<u8>,
}

/// The payload of an event, if it is an inbound message.
pub open spec fn spec_payload(ev: &Event) -> Option<Seq<u8>> {
    match ev {
        Event::ReceiveMsg(bytes) => Some(bytes@),
        _ => None,
    }
}

/// What the decode step makes of one event, given what the wire decoder made
/// of its payload: an envelope for an inbound message that decoded, nothing
/// for anything else.
pub open spec fn loaded(ev: &Event, decoded: Option<MessageRelay>) -> Option<MessageRelay> {
    if ev is ReceiveMsg {
        decoded
    } else {
        None
    }
}

/// The envelopes that a run of events yields, in the order of the events.
pub open spec fn delivered(events: Seq<Event>, decoded: Seq<Option<MessageRelay>>) -> Seq<
    MessageRelay,
>
    decreases events.len(),
{
    if events.len() == 0 || decoded.len() == 0 {
        Seq::empty()
    } else {
        let rest = delivered(events.drop_last(), decoded.drop_last());
        match loaded(&events.last(), decoded.last()) {
            Some(m) => rest.push(m),
            None => rest,
        }
    }
}

/// The payload of an event, if it is an inbound message: the bytes to hand
/// to the wire decoder.
pub fn payload(ev: &Event) -> (r: Option<&Vec<u8>>)
    ensures
        r is Some <==> spec_payload(ev) is Some,
        r matches Some(b) ==> b@ == spec_payload(ev)->Some_0,
{
    match ev {
        Event::ReceiveMsg(bytes) => Some(bytes),
        _ => None,
    }
}

/// The decode step: an inbound message whose payload decoded becomes its
/// envelope; a payload that did not decode, and every other kind of event,
/// is skipped.
pub fn load_message(ev: &Event, decoded: Option<MessageRelay>) -> (r: Option<MessageRelay>)
    ensures
        r == loaded(ev, decoded),
{
    match ev {
        Event::ReceiveMsg(_) => decoded,
        _ => None,
    }
}

/// What the message stream does with what the event channel gave it.
pub enum StreamStep {
    /// Hand this envelope to the consumer.
    Yield(MessageRelay),
    /// Drop the event and wait for the next one.
    Skip,
    /// The channel is closed: the stream ends.
    End,
}

/// One step of the message stream: `ev` is the next event, or `None` once
/// the channel is closed, and `decoded` is what the wire decoder made of its
/// payload. A closed channel ends the stream; an event that does not load
/// is skipped and the stream goes on.
pub fn stream_step(ev: Option<&Event>, decoded: Option<MessageRelay>) -> (r: StreamStep)
    ensures
        ev is None ==> r is End,
        ev matches Some(e) ==> match loaded(e, decoded) {
            Some(m) => r == StreamStep::Yield(m),
            None => r is Skip,
        },
{
    match ev {
        None => StreamStep::End,
        Some(e) => match load_message(e, decoded) {
            Some(m) => StreamStep::Yield(m),
            None => StreamStep::Skip,
        },
    }
}

/// The envelopes that a run of events yields: each event goes through the
/// decode step with what the wire decoder made of it, and what survives
/// keeps the order of the events.
pub fn deliver_all(events: &Vec<Event>, decoded: Vec<Option<MessageRelay>>) -> (r: Vec<
    MessageRelay,
>)
    requires
        events@.len() == decoded@.len(),
    ensures
        r@ == delivered(events@, decoded@),
{
    let ghost all = decoded@;
    let mut rest = decoded;
    let mut out: Vec<MessageRelay> = Vec::new();
    let mut i: usize = 0;
    while i < events.len()
        invariant
            events@.len() == all.len(),
            i <= events@.len(),
            rest@ == all.subrange(i as int, all.len() as int),
            out@ == delivered(events@.subrange(0, i as int), all.subrange(0, i as int)),
        decreases events.len() - i,
    {
        let d = rest.remove(0);
        proof {
            let ev_next = events@.subrange(0, i + 1);
            let dec_next = all.subrange(0, i + 1);
            assert(ev_next.drop_last() =~= events@.subrange(0, i as int));
            assert(dec_next.drop_last() =~= all.subrange(0, i as int));
            assert(d == all[i as int]);
        }
        match load_message(&events[i], d) {
            Some(m) => out.push(m),
            None => {},
        }
        i = i + 1;
        assert(rest@ =~= all.subrange(i as int, all.len() as int));
    }
    assert(events@.subrange(0, i as int) =~= events@);
    assert(all.subrange(0, i as int) =~= all);
    out
}

/// A well-formed inbound message followed by a malformed one yields exactly
/// the envelope of the well-formed one, whichever order they come in.
pub proof fn lemma_malformed_is_skipped(good: Event, bad: Event, envelope: MessageRelay)
    requires
        good is ReceiveMsg,
    ensures
        delivered(seq![good, bad], seq![Some(envelope), None]) == seq![envelope],
        delivered(seq![bad, good], seq![None, Some(envelope)]) == seq![envelope],
{
    let e1 = seq![good, bad];
    let d1 = seq![Some(envelope), None];
    assert(e1.drop_last() =~= seq![good]);
    assert(d1.drop_last() =~= seq![Some(envelope)]);
    assert(seq![good].drop_last() =~= Seq::<Event>::empty());
    assert(seq![Some(envelope)].drop_last() =~= Seq::<Option<MessageRelay>>::empty());
    assert(delivered(Seq::<Event>::empty(), Seq::<Option<MessageRelay>>::empty())
        == Seq::<MessageRelay>::empty());
    assert(Seq::<MessageRelay>::empty().push(envelope) =~= seq![envelope]);
    assert(seq![good].last() == good);
    assert(seq![Some(envelope)].last() == Some(envelope));
    assert(delivered(seq![good], seq![Some(envelope)]) =~= seq![envelope]);
    let e2 = seq![bad, good];
    let d2 = seq![None, Some(envelope)];
    assert(e2.drop_last() =~= seq![bad]);
    assert(d2.drop_last() =~= seq![None::<MessageRelay>]);
    assert(seq![bad].drop_last() =~= Seq::<Event>::empty());
    assert(seq![None::<MessageRelay>].drop_last() =~= Seq::<Option<MessageRelay>>::empty());
    assert(delivered(seq![bad], seq![None::<MessageRelay>]) =~= Seq::<MessageRelay>::empty());
}

} // verus!
