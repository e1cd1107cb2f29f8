use crate::error::Error;
use vstd::prelude::*;
use vstd::utf8::{
    decode_utf8, encode_utf8, encode_utf8_decode_utf8, encode_utf8_valid_utf8, valid_utf8,
};

verus! {

/// A session secret key, carried in the dumped text form that a stored
/// configuration holds.
pub struct SessionSk {
    dumped: String,
}

impl View for SessionSk {
    type V = Seq<char>;

    closed spec fn view(&self) -> Seq<char> {
        self.dumped@
    }
}

impl SessionSk {
    /// The key whose dumped form is `dumped`.
    pub fn from_dump(dumped: String) -> (r: SessionSk)
        ensures
            r@ == dumped@,
    {
        SessionSk { dumped }
    }

    /// The dumped form of the key.
    pub fn dump(&self) -> (r: String)
        ensures
            r@ == self@,
    {
        self.dumped.clone()
    }
}

/// A copy of an optional text.
fn clone_text(s: &Option<String>) -> (r: Option<String>)
    ensures
        r is Some <==> s is Some,
        r matches Some(t) ==> t@ == s->Some_0@,
{
    match s {
        Some(t) => Some(t.clone()),
        None => None,
    }
}

/// The contents of a processor configuration: ICE servers, external address,
/// the session key's dumped form, and the stabilization timeout.
pub type ConfigView = (Seq<char>, Option<Seq<char>>, Seq<char>, usize);

/// The view of an optional text.
pub open spec fn opt_view(s: Option<String>) -> Option<Seq<char>> {
    match s {
        Some(t) => Some(t@),
        None => None,
    }
}

/// The configuration of a processor.
pub struct ProcessorConfig {
    ice_servers: String,
    external_address: Option<String>,
    session_sk: SessionSk,
    stabilize_timeout: usize,
}

impl View for ProcessorConfig {
    type V = ConfigView;

    closed spec fn view(&self) -> ConfigView {
        (
            self.ice_servers@,
            opt_view(self.external_address),
            self.session_sk@,
            self.stabilize_timeout,
        )
    }
}

impl ProcessorConfig {
    /// A configuration without an external address.
    pub fn new(ice_servers: String, session_sk: SessionSk, stabilize_timeout: usize) -> (r: Self)
        ensures
            r@ == (ice_servers@, None::<Seq<char>>, session_sk@, stabilize_timeout),
    {
        ProcessorConfig { ice_servers, external_address: None, session_sk, stabilize_timeout }
    }

    /// A configuration with an external address.
    pub fn new_with_ext_addr(
        ice_servers: String,
        session_sk: SessionSk,
        stabilize_timeout: usize,
        external_address: String,
    ) -> (r: Self)
        ensures
            r@ == (ice_servers@, Some(external_address@), session_sk@, stabilize_timeout),
    {
        ProcessorConfig {
            ice_servers,
            external_address: Some(external_address),
            session_sk,
            stabilize_timeout,
        }
    }

    /// The session key of the configuration.
    pub fn session_sk(&self) -> (r: SessionSk)
        ensures
            r@ == self@.2,
    {
        SessionSk { dumped: self.session_sk.dumped.clone() }
    }

    /// The configuration that a serialized configuration describes.
    pub fn from_serialized(ins: &ProcessorConfigSerialized) -> (r: Self)
        ensures
            r@ == ins@,
    {
        ProcessorConfig {
            ice_servers: ins.ice_servers.clone(),
            external_address: clone_text(&ins.external_address),
            session_sk: SessionSk { dumped: ins.session_sk.clone() },
            stabilize_timeout: ins.stabilize_timeout,
        }
    }
}

/// A processor configuration with the session key in its dumped text form,
/// as it is stored.
pub struct ProcessorConfigSerialized {
    ice_servers: String,
    external_address: Option<String>,
    session_sk: String,
    stabilize_timeout: usize,
}

impl View for ProcessorConfigSerialized {
    type V = ConfigView;

    closed spec fn view(&self) -> ConfigView {
        (
            self.ice_servers@,
            opt_view(self.external_address),
            self.session_sk@,
            self.stabilize_timeout,
        )
    }
}

impl ProcessorConfigSerialized {
    /// A serialized configuration without an external address.
    pub fn new(ice_servers: String, session_sk: String, stabilize_timeout: usize) -> (r: Self)
        ensures
            r@ == (ice_servers@, None::<Seq<char>>, session_sk@, stabilize_timeout),
    {
        ProcessorConfigSerialized {
            ice_servers,
            external_address: None,
            session_sk,
            stabilize_timeout,
        }
    }

    /// A serialized configuration with an external address.
    pub fn new_with_ext_addr(
        ice_servers: String,
        session_sk: String,
        stabilize_timeout: usize,
        external_address: String,
    ) -> (r: Self)
        ensures
            r@ == (ice_servers@, Some(external_address@), session_sk@, stabilize_timeout),
    {
        ProcessorConfigSerialized {
            ice_servers,
            external_address: Some(external_address),
            session_sk,
            stabilize_timeout,
        }
    }

    /// The serialized form of a configuration.
    pub fn from_config(ins: &ProcessorConfig) -> (r: Self)
        ensures
            r@ == ins@,
    {
        ProcessorConfigSerialized {
            ice_servers: ins.ice_servers.clone(),
            external_address: clone_text(&ins.external_address),
            session_sk: ins.session_sk.dump(),
            stabilize_timeout: ins.stabilize_timeout,
        }
    }

    /// The ICE servers.
    pub fn ice_servers(&self) -> (r: &String)
        ensures
            r@ == self@.0,
    {
        &self.ice_servers
    }

    /// The external address, if any.
    pub fn external_address(&self) -> (r: &Option<String>)
        ensures
            opt_view(*r) == self@.1,
    {
        &self.external_address
    }

    /// The dumped session key.
    pub fn session_sk(&self) -> (r: &String)
        ensures
            r@ == self@.2,
    {
        &self.session_sk
    }

    /// The stabilization timeout.
    pub fn stabilize_timeout(&self) -> (r: usize)
        ensures
            r == self@.3,
    {
        self.stabilize_timeout
    }
}

/// Gathers what a processor is built from: a configuration, then a storage
/// (`S`) and a measure (`M`).
pub struct ProcessorBuilder<S, M> {
    ice_servers: String,
    external_address: Option<String>,
    session_sk: SessionSk,
    storage: Option<S>,
    measure: Option<M>,
    stabilize_timeout: usize,
}

impl<S, M> ProcessorBuilder<S, M> {
    /// The configuration part of the builder.
    pub closed spec fn spec_config(&self) -> ConfigView {
        (
            self.ice_servers@,
            opt_view(self.external_address),
            self.session_sk@,
            self.stabilize_timeout,
        )
    }

    /// The storage set so far.
    pub closed spec fn spec_storage(&self) -> Option<S> {
        self.storage
    }

    /// The measure set so far.
    pub closed spec fn spec_measure(&self) -> Option<M> {
        self.measure
    }

    /// A builder that starts from `config`, with no storage and no measure.
    pub fn from_config(config: &ProcessorConfig) -> (r: Result<Self, Error>)
        ensures
            r matches Ok(b) && b.spec_config() == config@ && b.spec_storage() is None
                && b.spec_measure() is None,
    {
        Ok(
            ProcessorBuilder {
                ice_servers: config.ice_servers.clone(),
                external_address: clone_text(&config.external_address),
                session_sk: config.session_sk(),
                storage: None,
                measure: None,
                stabilize_timeout: config.stabilize_timeout,
            },
        )
    }

    /// Sets the storage for the processor.
    pub fn storage(self, storage: S) -> (r: Self)
        ensures
            r.spec_config() == self.spec_config(),
            r.spec_storage() == Some(storage),
            r.spec_measure() == self.spec_measure(),
    {
        let mut b = self;
        b.storage = Some(storage);
        b
    }

    /// Sets the measure for the processor.
    pub fn measure(self, implement: M) -> (r: Self)
        ensures
            r.spec_config() == self.spec_config(),
            r.spec_storage() == self.spec_storage(),
            r.spec_measure() == Some(implement),
    {
        let mut b = self;
        b.measure = Some(implement);
        b
    }
}

/// A peer: its identifier in text and the connection to it.
pub struct Peer<C> {
    /// The identifier of the peer.
    pub did: String,
    /// The connection to the peer.
    pub connection: C,
}

/// Serves this node's ICE candidate over HTTP.
pub struct HttpTransport<P> {
    /// The address the server listens on.
    pub address: String,
    /// What gives the candidate.
    pub ice_provider: P,
}

impl<P> HttpTransport<P> {
    /// A server for `addr` that asks `ice_provider` for the candidate.
    pub fn new(addr: &str, ice_provider: P) -> (r: Self)
        ensures
            r.address@ == addr@,
            r.ice_provider == ice_provider,
    {
        HttpTransport { address: addr.to_owned(), ice_provider }
    }

    /// The body of the answer to a request: the candidate, or `404` when
    /// there is none.
    pub fn handler(&self, candidate: Option<String>) -> (r: String)
        ensures
            r@ == match candidate {
                Some(c) => c@,
                None => "404"@,
            },
    {
        match candidate {
            Some(c) => c,
            None => "404".to_owned(),
        }
    }
}

/// A custom message: its bytes as they were sent.
pub struct CustomMessage(pub Vec<u8>);

/// A message framed for sending: a header of four zero bytes (the chunk
/// mark, then three reserved bytes) and the message bytes.
pub open spec fn packed(msg: Seq<u8>) -> Seq<u8> {
    seq![0u8, 0u8, 0u8, 0u8] + msg
}

/// Frames `msg` as a custom message, as sending a message to a peer does.
pub fn pack_custom_message(msg: &[u8]) -> (r: CustomMessage)
    ensures
        r.0@ == packed(msg@),
{
    let mut out: Vec<u8> = Vec::new();
    out.push(0);
    out.push(0);
    out.push(0);
    out.push(0);
    let mut i: usize = 0;
    while i < msg.len()
        invariant
            i <= msg@.len(),
            out@ == packed(msg@.subrange(0, i as int)),
        decreases msg.len() - i,
    {
        out.push(msg[i]);
        i = i + 1;
        assert(out@ =~= packed(msg@.subrange(0, i as int)));
    }
    assert(msg@.subrange(0, i as int) =~= msg@);
    CustomMessage(out)
}

/// A text framed as a custom message unpacks to the same text: the frame is
/// accepted, and its body is the text's UTF-8 encoding.
pub proof fn lemma_text_round_trip(text: Seq<char>)
    ensures
        packed(encode_utf8(text)).len() >= 4,
        packed(encode_utf8(text))[0] == 0,
        valid_utf8(packed(encode_utf8(text)).subrange(4, packed(encode_utf8(text)).len() as int)),
        decode_utf8(packed(encode_utf8(text)).subrange(4, packed(encode_utf8(text)).len() as int))
            == text,
{
    let bytes = encode_utf8(text);
    assert(packed(bytes).subrange(4, packed(bytes).len() as int) =~= bytes);
    encode_utf8_valid_utf8(text);
    encode_utf8_decode_utf8(text);
}

/// Relies on `String::from_utf8`: it accepts exactly the byte sequences that
/// are valid UTF-8, and the string holds the characters that they encode.
#[verifier::external_body]
fn string_from_utf8(bytes: Vec<u8>) -> (r: Option<String>)
    ensures
        r is Some <==> valid_utf8(bytes@),
        r matches Some(s) ==> s@ == decode_utf8(bytes@),
{
    String::from_utf8(bytes).ok()
}

/// The text of a custom message: its first four bytes are a header whose
/// first byte must be 0, and the rest is UTF-8 text.
pub fn unpack_text_message(msg: &CustomMessage) -> (r: Result<String, Error>)
    requires
        msg.0@.len() >= 4,
        valid_utf8(msg.0@.subrange(4, msg.0@.len() as int)),
    ensures
        r is Err <==> msg.0@[0] != 0,
        r matches Err(e) ==> e == Error::InvalidData,
        r matches Ok(s) ==> s@ == decode_utf8(msg.0@.subrange(4, msg.0@.len() as int)),
{
    let bytes = &msg.0;
    if bytes[0] != 0 {
        return Err(Error::InvalidData);
    }
    let mut rest: Vec<u8> = Vec::new();
    let mut i: usize = 4;
    while i < bytes.len()
        invariant
            4 <= i <= bytes@.len(),
            rest@ == bytes@.subrange(4, i as int),
        decreases bytes.len() - i,
    {
        rest.push(bytes[i]);
        i = i + 1;
        assert(rest@ =~= bytes@.subrange(4, i as int));
    }
    match string_from_utf8(rest) {
        Some(text) => Ok(text),
        None => Err(Error::InvalidData),
    }
}

} // verus!
