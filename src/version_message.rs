//! The handshake message that opens a connection.

use vstd::prelude::*;

use crate::command_name::{CommandName, Message};
use crate::serialization::{
    holds_at, read_u16_at, read_u32_at, read_u64_at,
    SerializableLittleEndian,
};

verus! {

/// Whether a count of seconds since the Unix epoch names a representable
/// date and time in UTC.
pub uninterp spec fn utc_timestamp_valid(secs: i64) -> bool;

/// Relies on `chrono::DateTime::<Utc>::from_timestamp(secs, 0)`: it returns
/// `Some` exactly when `secs` is within the range of dates that chrono
/// represents, which depends on `secs` alone.
#[verifier::external_body]
fn timestamp_is_representable(secs: i64) -> (r: bool)
    ensures
        r == utc_timestamp_valid(secs),
{
    chrono::DateTime::<chrono::Utc>::from_timestamp(secs, 0).is_some()
}

/// Why a handshake could not be written or read.
#[derive(Debug, Clone, Copy, PartialEq, Eq, Structural)]
pub enum ErrorMessage {
    ErrorInSerialization,
    ErrorInDeserialization,
    ErrorWhileWriting,
}

/// The handshake: protocol version, the sender's services, the time, the
/// receiving and sending addresses and ports, a nonce, the user agent, the
/// sender's best height and whether it wants transactions relayed.
/// Addresses are IPv6 octets; the time is in seconds since the Unix epoch.
pub struct VersionMessage {
    pub version: i32,
    pub services: u64,
    pub timestamp: i64,
    pub recv_services: u64,
    pub recv_addr: [u8; 16],
    pub recv_port: u16,
    pub trans_addr: [u8; 16],
    pub trans_port: u16,
    pub nonce: u64,
    pub user_agent: Vec<u8>,
    pub start_height: i32,
    pub relay: bool,
}

/// The first 80 bytes: every field up to the nonce, little-endian, with the
/// sender's services written a second time in front of its address.
pub open spec fn fixed_bytes(m: VersionMessage) -> Seq<u8> {
    m.version.le_bytes() + m.services.le_bytes() + m.timestamp.le_bytes() + m.recv_services.le_bytes()
        + m.recv_addr@ + m.recv_port.le_bytes() + m.services.le_bytes() + m.trans_addr@
        + m.trans_port.le_bytes() + m.nonce.le_bytes()
}

/// The payload: the fixed part, the user agent's raw bytes, the start height
/// and the relay flag. The user agent has no length prefix: its length is
/// what the payload's length leaves for it.
pub open spec fn version_message_bytes(m: VersionMessage) -> Seq<u8> {
    fixed_bytes(m) + m.user_agent@ + m.start_height.le_bytes() + m.relay.le_bytes()
}

/// Where each field lies in the payload.
pub proof fn lemma_version_layout(m: VersionMessage)
    ensures
        ({
            let b = version_message_bytes(m);
            let n = b.len() as int;
            &&& n == 85 + m.user_agent@.len()
            &&& b.subrange(0, 4) == m.version.le_bytes()
            &&& b.subrange(4, 12) == m.services.le_bytes()
            &&& b.subrange(12, 20) == m.timestamp.le_bytes()
            &&& b.subrange(20, 28) == m.recv_services.le_bytes()
            &&& b.subrange(28, 44) == m.recv_addr@
            &&& b.subrange(44, 46) == m.recv_port.le_bytes()
            &&& b.subrange(46, 54) == m.services.le_bytes()
            &&& b.subrange(54, 70) == m.trans_addr@
            &&& b.subrange(70, 72) == m.trans_port.le_bytes()
            &&& b.subrange(72, 80) == m.nonce.le_bytes()
            &&& b.subrange(80, n - 5) == m.user_agent@
            &&& b.subrange(n - 5, n - 1) == m.start_height.le_bytes()
            &&& b[n - 1] == (if m.relay { 1u8 } else { 0u8 })
        }),
{
    let b = version_message_bytes(m);
    let f = fixed_bytes(m);
    assert(f.len() == 80);
    assert(b.subrange(0, 4) =~= f.subrange(0, 4));
    assert(b.subrange(4, 12) =~= f.subrange(4, 12));
    assert(b.subrange(12, 20) =~= f.subrange(12, 20));
    assert(b.subrange(20, 28) =~= f.subrange(20, 28));
    assert(b.subrange(28, 44) =~= f.subrange(28, 44));
    assert(b.subrange(44, 46) =~= f.subrange(44, 46));
    assert(b.subrange(46, 54) =~= f.subrange(46, 54));
    assert(b.subrange(54, 70) =~= f.subrange(54, 70));
    assert(b.subrange(70, 72) =~= f.subrange(70, 72));
    assert(b.subrange(72, 80) =~= f.subrange(72, 80));
    assert(f.subrange(0, 4) =~= m.version.le_bytes());
    assert(f.subrange(4, 12) =~= m.services.le_bytes());
    assert(f.subrange(12, 20) =~= m.timestamp.le_bytes());
    assert(f.subrange(20, 28) =~= m.recv_services.le_bytes());
    assert(f.subrange(28, 44) =~= m.recv_addr@);
    assert(f.subrange(44, 46) =~= m.recv_port.le_bytes());
    assert(f.subrange(46, 54) =~= m.services.le_bytes());
    assert(f.subrange(54, 70) =~= m.trans_addr@);
    assert(f.subrange(70, 72) =~= m.trans_port.le_bytes());
    assert(f.subrange(72, 80) =~= m.nonce.le_bytes());
    let n = b.len() as int;
    assert(b.subrange(80, n - 5) =~= m.user_agent@);
    assert(b.subrange(n - 5, n - 1) =~= m.start_height.le_bytes());
}

/// A payload whose every field range holds the field of `m` is the encoding of `m`.
proof fn lemma_payload_matches(data: Seq<u8>, m: VersionMessage)
    requires
        data.len() == 85 + m.user_agent@.len(),
        data.subrange(0, 4) == m.version.le_bytes(),
        data.subrange(4, 12) == m.services.le_bytes(),
        data.subrange(12, 20) == m.timestamp.le_bytes(),
        data.subrange(20, 28) == m.recv_services.le_bytes(),
        data.subrange(28, 44) == m.recv_addr@,
        data.subrange(44, 46) == m.recv_port.le_bytes(),
        data.subrange(46, 54) == m.services.le_bytes(),
        data.subrange(54, 70) == m.trans_addr@,
        data.subrange(70, 72) == m.trans_port.le_bytes(),
        data.subrange(72, 80) == m.nonce.le_bytes(),
        data.subrange(80, data.len() - 5) == m.user_agent@,
        data.subrange(data.len() - 5, data.len() - 1) == m.start_height.le_bytes(),
        data[data.len() - 1] == (if m.relay { 1u8 } else { 0u8 }),
    ensures
        version_message_bytes(m) == data,
{
    let n = data.len() as int;
    lemma_version_layout(m);
    let b = version_message_bytes(m);
    assert forall|i: int| 0 <= i < n implies b[i] == data[i] by {
        if i < 4 {
            assert(b[i] == b.subrange(0, 4)[i] && data[i] == data.subrange(0, 4)[i]);
        } else if i < 12 {
            assert(b[i] == b.subrange(4, 12)[i - 4] && data[i] == data.subrange(4, 12)[i - 4]);
        } else if i < 20 {
            assert(b[i] == b.subrange(12, 20)[i - 12] && data[i] == data.subrange(12, 20)[i - 12]);
        } else if i < 28 {
            assert(b[i] == b.subrange(20, 28)[i - 20] && data[i] == data.subrange(20, 28)[i - 20]);
        } else if i < 44 {
            assert(b[i] == b.subrange(28, 44)[i - 28] && data[i] == data.subrange(28, 44)[i - 28]);
        } else if i < 46 {
            assert(b[i] == b.subrange(44, 46)[i - 44] && data[i] == data.subrange(44, 46)[i - 44]);
        } else if i < 54 {
            assert(b[i] == b.subrange(46, 54)[i - 46] && data[i] == data.subrange(46, 54)[i - 46]);
        } else if i < 70 {
            assert(b[i] == b.subrange(54, 70)[i - 54] && data[i] == data.subrange(54, 70)[i - 54]);
        } else if i < 72 {
            assert(b[i] == b.subrange(70, 72)[i - 70] && data[i] == data.subrange(70, 72)[i - 70]);
        } else if i < 80 {
            assert(b[i] == b.subrange(72, 80)[i - 72] && data[i] == data.subrange(72, 80)[i - 72]);
        } else if i < n - 5 {
            assert(b[i] == b.subrange(80, n - 5)[i - 80] && data[i] == data.subrange(80, n - 5)[i
                - 80]);
        } else if i < n - 1 {
            assert(b[i] == b.subrange(n - 5, n - 1)[i - (n - 5)] && data[i] == data.subrange(
                n - 5,
                n - 1,
            )[i - (n - 5)]);
        }
    }
    assert(b =~= data);
}

/// Two messages with one encoding are the same message: reading back a
/// written payload gives the message that was written.
pub proof fn lemma_version_round_trip(a: VersionMessage, b: VersionMessage)
    requires
        version_message_bytes(a) == version_message_bytes(b),
    ensures
        a.version == b.version && a.services == b.services && a.timestamp == b.timestamp
            && a.recv_services == b.recv_services && a.recv_addr == b.recv_addr && a.recv_port
            == b.recv_port && a.trans_addr == b.trans_addr && a.trans_port == b.trans_port
            && a.nonce == b.nonce && a.user_agent@ == b.user_agent@ && a.start_height
            == b.start_height && a.relay == b.relay,
{
    let d = version_message_bytes(a);
    lemma_version_layout(a);
    lemma_version_layout(b);
    assert(holds_at(d, 0, a.version.le_bytes()) && holds_at(d, 0, b.version.le_bytes()));
    i32::lemma_le_unique(d, 0, a.version, b.version);
    assert(holds_at(d, 4, a.services.le_bytes()) && holds_at(d, 4, b.services.le_bytes()));
    u64::lemma_le_unique(d, 4, a.services, b.services);
    assert(holds_at(d, 12, a.timestamp.le_bytes()) && holds_at(d, 12, b.timestamp.le_bytes()));
    i64::lemma_le_unique(d, 12, a.timestamp, b.timestamp);
    assert(holds_at(d, 20, a.recv_services.le_bytes()) && holds_at(d, 20, b.recv_services.le_bytes()));
    u64::lemma_le_unique(d, 20, a.recv_services, b.recv_services);
    assert(a.recv_addr@ == b.recv_addr@);
    assert(a.recv_addr =~= b.recv_addr);
    assert(holds_at(d, 44, a.recv_port.le_bytes()) && holds_at(d, 44, b.recv_port.le_bytes()));
    u16::lemma_le_unique(d, 44, a.recv_port, b.recv_port);
    assert(a.trans_addr@ == b.trans_addr@);
    assert(a.trans_addr =~= b.trans_addr);
    assert(holds_at(d, 70, a.trans_port.le_bytes()) && holds_at(d, 70, b.trans_port.le_bytes()));
    u16::lemma_le_unique(d, 70, a.trans_port, b.trans_port);
    assert(holds_at(d, 72, a.nonce.le_bytes()) && holds_at(d, 72, b.nonce.le_bytes()));
    u64::lemma_le_unique(d, 72, a.nonce, b.nonce);
    let n = d.len() as int;
    assert(holds_at(d, n - 5, a.start_height.le_bytes()) && holds_at(d, n - 5, b.start_height.le_bytes()));
    i32::lemma_le_unique(d, n - 5, a.start_height, b.start_height);
}

/// Reads the 16 bytes at `pos`.
fn read_addr_at(data: &[u8], pos: usize) -> (a: [u8; 16])
    requires
        pos + 16 <= data@.len(),
    ensures
        a@ == data@.subrange(pos as int, pos + 16),
{
    let n = data.len();
    let mut a: [u8; 16] = [0u8; 16];
    let mut i: usize = 0;
    while i < 16
        invariant
            0 <= i <= 16,
            n == data@.len(),
            pos + 16 <= data@.len(),
            forall|j: int| 0 <= j < i ==> #[trigger] a@[j] == data@[pos + j],
        decreases 16 - i,
    {
        a[i] = data[pos + i];
        i += 1;
    }
    assert(a@ =~= data@.subrange(pos as int, pos + 16));
    a
}

/// Appends the 16 bytes of `a`.
fn write_addr(a: &[u8; 16], stream: &mut Vec<u8>)
    ensures
        final(stream)@ == old(stream)@ + a@,
{
    let mut i: usize = 0;
    while i < 16
        invariant
            0 <= i <= 16,
            stream@ == old(stream)@ + a@.subrange(0, i as int),
        decreases 16 - i,
    {
        stream.push(a[i]);
        assert(a@.subrange(0, i + 1) =~= a@.subrange(0, i as int).push(a@[i as int]));
        i += 1;
    }
    assert(a@.subrange(0, 16) =~= a@);
}

impl Message for VersionMessage {
    open spec fn command_name() -> CommandName {
        CommandName::Version
    }

    fn get_command_name() -> (r: CommandName) {
        CommandName::Version
    }
}

impl VersionMessage {
    pub fn new(
        version: i32,
        services: u64,
        timestamp: i64,
        recv_services: u64,
        recv_addr: [u8; 16],
        recv_port: u16,
        trans_addr: [u8; 16],
        trans_port: u16,
        nonce: u64,
        user_agent: Vec<u8>,
        start_height: i32,
        relay: bool,
    ) -> (r: Self)
        ensures
            r.version == version && r.services == services && r.timestamp == timestamp
                && r.recv_services == recv_services && r.recv_addr == recv_addr && r.recv_port
                == recv_port && r.trans_addr == trans_addr && r.trans_port == trans_port && r.nonce
                == nonce && r.user_agent == user_agent && r.start_height == start_height && r.relay
                == relay,
    {
        VersionMessage {
            version,
            services,
            timestamp,
            recv_services,
            recv_addr,
            recv_port,
            trans_addr,
            trans_port,
            nonce,
            user_agent,
            start_height,
            relay,
        }
    }

    /// Appends the payload of this message.
    pub fn serialize(&self, stream: &mut Vec<u8>)
        ensures
            final(stream)@ == old(stream)@ + version_message_bytes(*self),
    {
        self.version.le_serialize(stream);
        self.services.le_serialize(stream);
        self.timestamp.le_serialize(stream);
        self.recv_services.le_serialize(stream);
        write_addr(&self.recv_addr, stream);
        self.recv_port.le_serialize(stream);
        self.services.le_serialize(stream);
        write_addr(&self.trans_addr, stream);
        self.trans_port.le_serialize(stream);
        self.nonce.le_serialize(stream);
        let mut i: usize = 0;
        let ghost mid = stream@;
        while i < self.user_agent.len()
            invariant
                0 <= i <= self.user_agent@.len(),
                stream@ == mid + self.user_agent@.subrange(0, i as int),
            decreases self.user_agent@.len() - i,
        {
            stream.push(self.user_agent[i]);
            assert(self.user_agent@.subrange(0, i + 1) =~= self.user_agent@.subrange(0, i as int).push(
                self.user_agent@[i as int],
            ));
            i += 1;
        }
        assert(self.user_agent@.subrange(0, self.user_agent@.len() as int) =~= self.user_agent@);
        self.start_height.le_serialize(stream);
        self.relay.le_serialize(stream);
        assert(final(stream)@ =~= old(stream)@ + version_message_bytes(*self));
    }

    /// Reads a whole payload. It succeeds exactly when the payload is the
    /// encoding of some message; the two copies of the sender's services
    /// must agree and the relay flag must be 0 or 1.
    pub fn decode_payload(data: &[u8]) -> (r: Result<VersionMessage, ErrorMessage>)
        ensures
            r is Ok <==> exists|m: VersionMessage| #[trigger] version_message_bytes(m) == data@,
            r matches Ok(m) ==> version_message_bytes(m) == data@,
            r is Err ==> r == Err::<VersionMessage, ErrorMessage>(ErrorMessage::ErrorInDeserialization),
    {
        let n = data.len();
        if n < 85 {
            proof {
                assert forall|m: VersionMessage| #[trigger] version_message_bytes(m) != data@ by {
                    lemma_version_layout(m);
                }
            }
            return Err(ErrorMessage::ErrorInDeserialization);
        }
        let version_raw = read_u32_at(data, 0);
        let version = version_raw as i32;
        let services = read_u64_at(data, 4);
        let timestamp_raw = read_u64_at(data, 12);
        let timestamp = timestamp_raw as i64;
        let recv_services = read_u64_at(data, 20);
        let recv_addr = read_addr_at(data, 28);
        let recv_port = read_u16_at(data, 44);
        let services_again = read_u64_at(data, 46);
        let trans_addr = read_addr_at(data, 54);
        let trans_port = read_u16_at(data, 70);
        let nonce = read_u64_at(data, 72);
        let start_height_raw = read_u32_at(data, n - 5);
        let start_height = start_height_raw as i32;
        let relay_byte = data[n - 1];
        if services_again != services || relay_byte > 1 {
            proof {
                assert forall|m: VersionMessage| #[trigger] version_message_bytes(m) != data@ by {
                    lemma_version_layout(m);
                    if version_message_bytes(m) == data@ {
                        assert(holds_at(data@, 4, services.le_bytes()));
                        assert(holds_at(data@, 4, m.services.le_bytes()));
                        assert(holds_at(data@, 46, services_again.le_bytes()));
                        assert(holds_at(data@, 46, m.services.le_bytes()));
                        u64::lemma_le_unique(data@, 4, services, m.services);
                        u64::lemma_le_unique(data@, 46, services_again, m.services);
                    }
                }
            }
            return Err(ErrorMessage::ErrorInDeserialization);
        }
        let mut user_agent: Vec<u8> = Vec::new();
        let mut i: usize = 80;
        while i < n - 5
            invariant
                n == data@.len(),
                n >= 85,
                80 <= i <= n - 5,
                user_agent@ == data@.subrange(80, i as int),
            decreases n - 5 - i,
        {
            user_agent.push(data[i]);
            assert(data@.subrange(80, i + 1) =~= data@.subrange(80, i as int).push(data@[i as int]));
            i += 1;
        }
        let m = VersionMessage {
            version,
            services,
            timestamp,
            recv_services,
            recv_addr,
            recv_port,
            trans_addr,
            trans_port,
            nonce,
            user_agent,
            start_height,
            relay: relay_byte == 1,
        };
        proof {
            assert(version as u32 == version_raw) by (bit_vector)
                requires
                    version == version_raw as i32,
            ;
            assert(start_height as u32 == start_height_raw) by (bit_vector)
                requires
                    start_height == start_height_raw as i32,
            ;
            assert(timestamp as u64 == timestamp_raw) by (bit_vector)
                requires
                    timestamp == timestamp_raw as i64,
            ;
            assert(data@.subrange(0, 4) == m.version.le_bytes());
            assert(data@.subrange(12, 20) == m.timestamp.le_bytes());
            assert(data@.subrange(n - 5, n - 1) == m.start_height.le_bytes());
            assert(data@[n - 1] == (if m.relay { 1u8 } else { 0u8 }));
            lemma_payload_matches(data@, m);
        }
        Ok(m)
    }

    /// Reads a whole payload as `decode_payload` does, and also refuses a
    /// time that is not a representable date.
    pub fn deserialize(data: &[u8]) -> (r: Result<VersionMessage, ErrorMessage>)
        ensures
            r is Ok <==> exists|m: VersionMessage| #[trigger] version_message_bytes(m) == data@
                && utc_timestamp_valid(m.timestamp),
            r matches Ok(m) ==> version_message_bytes(m) == data@ && utc_timestamp_valid(m.timestamp),
            r is Err ==> r == Err::<VersionMessage, ErrorMessage>(ErrorMessage::ErrorInDeserialization),
    {
        let m = match VersionMessage::decode_payload(data) {
            Ok(m) => m,
            Err(e) => return Err(e),
        };
        if !timestamp_is_representable(m.timestamp) {
            proof {
                assert forall|m2: VersionMessage| #[trigger] version_message_bytes(m2) == data@
                    implies !utc_timestamp_valid(m2.timestamp) by {
                    lemma_version_layout(m);
                    lemma_version_layout(m2);
                    assert(holds_at(data@, 12, m.timestamp.le_bytes()));
                    assert(holds_at(data@, 12, m2.timestamp.le_bytes()));
                    i64::lemma_le_unique(data@, 12, m.timestamp, m2.timestamp);
                }
            }
            return Err(ErrorMessage::ErrorInDeserialization);
        }
        Ok(m)
    }
}

} // verus!
