use bns_core::{
    pack_custom_message, unpack_text_message, CustomMessage, Error, HttpTransport, Peer, ProcessorBuilder,
    ProcessorConfig, ProcessorConfigSerialized, SessionSk,
};

fn key() -> SessionSk {
    SessionSk::from_dump("dumped-key".to_string())
}

#[test]
fn config_round_trips_through_serialized_form() {
    let cfg = ProcessorConfig::new_with_ext_addr(
        "stun://stun.l.google.com:19302".to_string(),
        key(),
        200,
        "1.2.3.4".to_string(),
    );
    assert_eq!(cfg.session_sk().dump(), "dumped-key");
    let ser = ProcessorConfigSerialized::from_config(&cfg);
    assert_eq!(ser.ice_servers(), "stun://stun.l.google.com:19302");
    assert_eq!(ser.external_address().as_deref(), Some("1.2.3.4"));
    assert_eq!(ser.session_sk(), "dumped-key");
    assert_eq!(ser.stabilize_timeout(), 200);
    let back = ProcessorConfig::from_serialized(&ser);
    assert_eq!(back.session_sk().dump(), "dumped-key");
}

#[test]
fn serialized_config_without_external_address() {
    let ser = ProcessorConfigSerialized::new("ice".to_string(), "sk".to_string(), 3);
    assert!(ser.external_address().is_none());
    let cfg = ProcessorConfig::new("ice".to_string(), key(), 3);
    let ser2 = ProcessorConfigSerialized::from_config(&cfg);
    assert!(ser2.external_address().is_none());
    assert_eq!(ser2.stabilize_timeout(), 3);
    let ser3 = ProcessorConfigSerialized::new_with_ext_addr(
        "ice".to_string(),
        "sk".to_string(),
        3,
        "addr".to_string(),
    );
    assert_eq!(ser3.external_address().as_deref(), Some("addr"));
}

#[test]
fn builder_collects_storage_and_measure() {
    let cfg = ProcessorConfig::new("ice".to_string(), key(), 3);
    let builder: ProcessorBuilder<u32, &str> = ProcessorBuilder::from_config(&cfg).unwrap();
    let _builder = builder.storage(7).measure("m");
}

#[test]
fn unpack_text_message_reads_text_after_header() {
    let mut bytes = vec![0u8, 0, 0, 0];
    bytes.extend_from_slice("test1".as_bytes());
    assert_eq!(unpack_text_message(&CustomMessage(bytes)).unwrap(), "test1");
    assert_eq!(
        unpack_text_message(&CustomMessage(vec![0, 9, 9, 9])).unwrap(),
        ""
    );
}

#[test]
fn unpack_text_message_rejects_chunked_mark() {
    let bytes = vec![1u8, 0, 0, 0, b'a'];
    assert_eq!(
        unpack_text_message(&CustomMessage(bytes)),
        Err(Error::InvalidData)
    );
}

#[test]
fn http_transport_answers_candidate_or_404() {
    let t = HttpTransport::new("127.0.0.1:50000", ());
    assert_eq!(t.address, "127.0.0.1:50000");
    assert_eq!(t.handler(Some("cand".to_string())), "cand");
    assert_eq!(t.handler(None), "404");
}

#[test]
fn peer_holds_did_and_connection() {
    let p = Peer {
        did: "0x11e8".to_string(),
        connection: 5u8,
    };
    assert_eq!(p.did, "0x11e8");
    assert_eq!(p.connection, 5);
}

#[test]
fn pack_custom_message_prefixes_zero_header() {
    let packed = pack_custom_message("test2".as_bytes());
    assert_eq!(packed.0, vec![0, 0, 0, 0, b't', b'e', b's', b't', b'2']);
    assert_eq!(unpack_text_message(&packed).unwrap(), "test2");
    assert_eq!(pack_custom_message(&[]).0, vec![0, 0, 0, 0]);
}
