use bns_core::{
    deliver_all, load_message, payload, stream_step, Did, Error, Event, MessageRelay, StreamStep,
    Swarm,
};
use std::str::FromStr;
use std::sync::Arc;

fn addr(text: &str) -> Did {
    Did::from_str(text).unwrap()
}

fn new_swarm(text: &str) -> Swarm<Arc<String>> {
    Swarm::new("stun:stun.l.google.com:19302", addr(text))
}

const A1: &str = "0x11E807fcc88dD319270493fB2e822e388Fe36ab0";
const A2: &str = "0x999999cf1046e68e36E1aA2E0E07105eDDD1f08E";

#[test]
fn test_swarm_register_and_get() {
    let mut swarm1 = new_swarm(A1);
    let mut swarm2 = new_swarm(A2);

    assert!(swarm1.get_transport(&swarm2.address()).is_none());
    assert!(swarm2.get_transport(&swarm1.address()).is_none());

    let transport1 = Arc::new("t1".to_string());
    let transport2 = Arc::new("t2".to_string());

    let a2 = swarm2.address();
    let a1 = swarm1.address();
    assert!(swarm1.register(a2, transport1.clone()).is_none());
    assert!(swarm2.register(a1, transport2.clone()).is_none());

    let transport_1_to_2 = swarm1.get_transport(&a2).unwrap();
    let transport_2_to_1 = swarm2.get_transport(&a1).unwrap();

    assert!(Arc::ptr_eq(&transport_1_to_2, &transport1));
    assert!(Arc::ptr_eq(&transport_2_to_1, &transport2));
}

#[test]
fn test_swarm_will_close_previous_transport() {
    let mut swarm1 = new_swarm(A1);
    let a2 = addr(A2);
    let transport0 = Arc::new("t0".to_string());
    let transport1 = Arc::new("t1".to_string());

    assert!(swarm1.register(a2, transport0.clone()).is_none());
    let evicted = swarm1.register(a2, transport1.clone()).unwrap();
    assert!(Arc::ptr_eq(&evicted, &transport0));
    let current = swarm1.get_transport(&a2).unwrap();
    assert!(Arc::ptr_eq(&current, &transport1));
}

#[test]
fn swarm_keeps_its_address_and_stun_server() {
    let swarm = new_swarm(A1);
    assert_eq!(swarm.address(), addr(A1));
    assert_eq!(swarm.stun_server(), "stun:stun.l.google.com:19302");
}

#[test]
fn get_or_register_first_candidate_wins() {
    let mut swarm = new_swarm(A1);
    let a2 = addr(A2);
    let c1 = Arc::new("c1".to_string());
    let c2 = Arc::new("c2".to_string());
    let r1 = swarm.get_or_register(a2, c1.clone(), true).unwrap();
    let r2 = swarm.get_or_register(a2, c2.clone(), true).unwrap();
    assert!(Arc::ptr_eq(&r1, &c1));
    assert!(Arc::ptr_eq(&r2, &c1));
    assert!(Arc::ptr_eq(&swarm.get_transport(&a2).unwrap(), &c1));
}

#[test]
fn get_or_register_refuses_unconnected() {
    let mut swarm = new_swarm(A1);
    let a2 = addr(A2);
    let c1 = Arc::new("c1".to_string());
    assert_eq!(
        swarm.get_or_register(a2, c1.clone(), false).err(),
        Some(Error::NotConnected)
    );
    assert!(swarm.get_transport(&a2).is_none());
    let c0 = Arc::new("c0".to_string());
    swarm.register(a2, c0.clone());
    assert_eq!(
        swarm.get_or_register(a2, c1, false).err(),
        Some(Error::NotConnected)
    );
    assert!(Arc::ptr_eq(&swarm.get_transport(&a2).unwrap(), &c0));
}

#[test]
fn route_message_needs_an_entry() {
    let mut swarm = new_swarm(A1);
    let a2 = addr(A2);
    assert_eq!(swarm.route_message(&a2).err(), Some(Error::PeerUnreachable));
    let c = Arc::new("c".to_string());
    swarm.register(a2, c.clone());
    assert!(Arc::ptr_eq(&swarm.route_message(&a2).unwrap(), &c));
}

fn envelope(id: &str) -> MessageRelay {
    MessageRelay {
        id: id.to_string(),
        kind: "custom".to_string(),
        content: vec![1, 2, 3],
    }
}

#[test]
fn payload_only_of_inbound_messages() {
    let ev = Event::ReceiveMsg(vec![7, 8]);
    assert_eq!(payload(&ev), Some(&vec![7, 8]));
    assert!(payload(&Event::ConnectClosed(addr(A1))).is_none());
}

#[test]
fn load_message_skips_other_events() {
    let ev = Event::ReceiveMsg(vec![1]);
    assert_eq!(load_message(&ev, Some(envelope("m1"))).unwrap().id, "m1");
    assert!(load_message(&ev, None).is_none());
    assert!(load_message(&Event::RegisterTransport(addr(A1)), Some(envelope("m2"))).is_none());
}

#[test]
fn stream_yields_only_well_formed_in_order() {
    let events = vec![
        Event::ReceiveMsg(b"good".to_vec()),
        Event::ReceiveMsg(b"bad".to_vec()),
        Event::ConnectClosed(addr(A2)),
        Event::ReceiveMsg(b"good2".to_vec()),
    ];
    let decoded = vec![Some(envelope("a")), None, None, Some(envelope("b"))];
    let out = deliver_all(&events, decoded);
    let ids: Vec<&str> = out.iter().map(|m| m.id.as_str()).collect();
    assert_eq!(ids, vec!["a", "b"]);
}

#[test]
fn stream_one_good_one_malformed() {
    let events = vec![
        Event::ReceiveMsg(b"good".to_vec()),
        Event::ReceiveMsg(b"bad".to_vec()),
    ];
    let out = deliver_all(&events, vec![Some(envelope("only")), None]);
    assert_eq!(out.len(), 1);
    assert_eq!(out[0].id, "only");
}

#[test]
fn stream_step_yields_skips_and_ends() {
    let ev = Event::ReceiveMsg(b"x".to_vec());
    match stream_step(Some(&ev), Some(envelope("y"))) {
        StreamStep::Yield(m) => assert_eq!(m.id, "y"),
        _ => panic!("expected an envelope"),
    }
    assert!(matches!(stream_step(Some(&ev), None), StreamStep::Skip));
    assert!(matches!(
        stream_step(Some(&Event::RegisterTransport(addr(A1))), Some(envelope("z"))),
        StreamStep::Skip
    ));
    assert!(matches!(stream_step(None, None), StreamStep::End));
}
