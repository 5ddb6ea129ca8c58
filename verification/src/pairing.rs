//! What transient pairing with a HomePod needs to know about the target:
//! its address, a MAC-style device identifier, its model and feature bits.

use vstd::prelude::*;

use crate::net::IpAddress;
use crate::text::{append_chars, chars_of, hex2, hex_char, push_hex2, string_from};

verus! {

/// The fixed PIN that HomePods accept in transient pairing.
pub const HOMEPOD_TRANSIENT_PIN: &'static str = "3939";

/// The port an AirPlay receiver is assumed to listen on when none is given.
pub const DEFAULT_AIRPLAY_PORT: u16 = 7000;

/// Why pairing failed.
#[derive(Debug)]
pub enum PairingError {
    Client(String),
    InvalidDeviceId(String),
    InvalidFeatures(String),
}

/// The minimum known about a receiver to pair with it: address and port,
/// a display name, and, when mDNS announced them, its MAC, model and
/// feature string.
#[derive(Debug)]
pub struct DeviceDescriptor {
    pub ip: IpAddress,
    pub port: u16,
    pub name: String,
    pub mac: Option<String>,
    pub model: Option<String>,
    pub features: Option<String>,
}

/// The stable MAC-style identifier derived from an address when the real
/// MAC is unknown: a locally administered `02:00:` followed by the four
/// IPv4 octets in upper-case hexadecimal; every IPv6 address maps to
/// `02:00:00:00:00:01`.
pub open spec fn synthetic_mac(ip: IpAddress) -> Seq<char> {
    match ip {
        IpAddress::V4(a, b, c, d) => "02:00:"@ + hex2(a) + ":"@ + hex2(b) + ":"@ + hex2(c) + ":"@
            + hex2(d),
        IpAddress::V6(..) => "02:00:00:00:00:01"@,
    }
}

/// The feature string assumed when none was announced: enough for
/// transient pairing and RTSP.
pub open spec fn default_features() -> Seq<char> {
    "0x4A7FCA00,0x3C354BD0"@
}

/// The model assumed when none was announced: a HomePod mini.
pub open spec fn default_model() -> Seq<char> {
    "AudioAccessory5,1"@
}

/// The character model of an optional `String`, or `default` when absent.
pub open spec fn chars_or(s: Option<String>, default: Seq<char>) -> Seq<char> {
    match s {
        Some(x) => x@,
        None => default,
    }
}

/// The identifier derived from `ip` (see [`synthetic_mac`]).
pub fn synthetic_mac_for(ip: IpAddress) -> (mac: String)
    ensures
        mac@ == synthetic_mac(ip),
{
    match ip {
        IpAddress::V4(a, b, c, d) => {
            let mut v = chars_of("02:00:");
            push_hex2(&mut v, a);
            v.push(':');
            push_hex2(&mut v, b);
            v.push(':');
            push_hex2(&mut v, c);
            v.push(':');
            push_hex2(&mut v, d);
            proof {
                reveal_strlit(":");
            }
            assert(v@ =~= synthetic_mac(ip));
            string_from(&v)
        },
        IpAddress::V6(..) => string_from(&chars_of("02:00:00:00:00:01")),
    }
}

fn clone_or(s: &Option<String>, default: &str) -> (res: String)
    ensures
        res@ == chars_or(*s, default@),
{
    match s {
        Some(x) => x.clone(),
        None => string_from(&chars_of(default)),
    }
}

/// The values from which the pairing client's device record is built.
#[derive(Debug)]
pub struct PairingTarget {
    pub mac: String,
    pub name: String,
    pub model: String,
    pub features: String,
    pub ip: IpAddress,
    pub port: u16,
}

/// The display name of a receiver known only by its address, written as
/// `ip_text`.
pub open spec fn address_name(ip_text: Seq<char>) -> Seq<char> {
    "HomePod "@ + ip_text
}

/// The display name of a receiver known only by its address (see
/// [`address_name`]).
pub fn address_name_of(ip_text: &str) -> (s: String)
    ensures
        s@ == address_name(ip_text@),
{
    let mut v = chars_of("HomePod ");
    append_chars(&mut v, &chars_of(ip_text));
    string_from(&v)
}

impl DeviceDescriptor {
    /// A receiver given by the user: its address (written as `ip_text`),
    /// the port (else [`DEFAULT_AIRPLAY_PORT`]) and the name (else
    /// "HomePod " followed by the address); nothing announced by mDNS.
    pub fn for_address(ip: IpAddress, ip_text: &str, port: Option<u16>, name: Option<String>) -> (d:
        DeviceDescriptor)
        ensures
            d.ip == ip,
            d.port == (match port {
                Some(p) => p,
                None => DEFAULT_AIRPLAY_PORT,
            }),
            d.name@ == chars_or(name, address_name(ip_text@)),
            d.mac is None,
            d.model is None,
            d.features is None,
    {
        let port = match port {
            Some(p) => p,
            None => DEFAULT_AIRPLAY_PORT,
        };
        let name = match name {
            Some(n) => n,
            None => address_name_of(ip_text),
        };
        DeviceDescriptor { ip, port, name, mac: None, model: None, features: None }
    }

    /// The MAC to pair as: the announced one, else one derived from the
    /// address.
    pub fn device_mac(&self) -> (mac: String)
        ensures
            mac@ == chars_or(self.mac, synthetic_mac(self.ip)),
    {
        match &self.mac {
            Some(m) => m.clone(),
            None => synthetic_mac_for(self.ip),
        }
    }

    /// The pairing client's view of this receiver: MAC, name, model and
    /// feature string, with the defaults filled in, and its address.
    pub fn pairing_target(&self) -> (t: PairingTarget)
        ensures
            t.mac@ == chars_or(self.mac, synthetic_mac(self.ip)),
            t.name@ == self.name@,
            t.model@ == chars_or(self.model, default_model()),
            t.features@ == chars_or(self.features, default_features()),
            t.ip == self.ip,
            t.port == self.port,
    {
        PairingTarget {
            mac: self.device_mac(),
            name: self.name.clone(),
            model: clone_or(&self.model, "AudioAccessory5,1"),
            features: clone_or(&self.features, "0x4A7FCA00,0x3C354BD0"),
            ip: self.ip,
            port: self.port,
        }
    }
}

proof fn lemma_hex_char_injective(x: nat, y: nat)
    requires
        x < 16,
        y < 16,
        hex_char(x) == hex_char(y),
    ensures
        x == y,
{
    assert((hex_char(x) as u32) == (hex_char(y) as u32));
}

proof fn lemma_hex2_injective(a: u8, b: u8)
    requires
        hex2(a) == hex2(b),
    ensures
        a == b,
{
    assert(hex2(a)[0] == hex2(b)[0]);
    assert(hex2(a)[1] == hex2(b)[1]);
    lemma_hex_char_injective(a as nat / 16, b as nat / 16);
    lemma_hex_char_injective(a as nat % 16, b as nat % 16);
}

/// A derived identifier is a well-formed MAC: six pairs of upper-case
/// hexadecimal digits separated by colons.
pub open spec fn mac_shaped(m: Seq<char>) -> bool {
    &&& m.len() == 17
    &&& forall|k: int|
        0 <= k < 17 ==> (if k % 3 == 2 {
            m[k] == ':'
        } else {
            ('0' <= #[trigger] m[k] <= '9') || ('A' <= m[k] <= 'F')
        })
}

/// Distinct IPv4 addresses get distinct derived identifiers, and every
/// derived identifier is MAC-shaped.
pub proof fn lemma_synthetic_mac(ip1: IpAddress, ip2: IpAddress)
    ensures
        mac_shaped(synthetic_mac(ip1)),
        (ip1 is V4 && ip2 is V4 && synthetic_mac(ip1) == synthetic_mac(ip2)) ==> ip1 == ip2,
{
    reveal_strlit("02:00:");
    reveal_strlit(":");
    reveal_strlit("02:00:00:00:00:01");
    let m = synthetic_mac(ip1);
    match ip1 {
        IpAddress::V4(a, b, c, d) => {
            assert(m.len() == 17);
            assert(m[6] == hex2(a)[0] && m[7] == hex2(a)[1]);
            assert(m[9] == hex2(b)[0] && m[10] == hex2(b)[1]);
            assert(m[12] == hex2(c)[0] && m[13] == hex2(c)[1]);
            assert(m[15] == hex2(d)[0] && m[16] == hex2(d)[1]);
            assert(m[2] == ':' && m[5] == ':' && m[8] == ':' && m[11] == ':' && m[14] == ':');
            if let IpAddress::V4(a2, b2, c2, d2) = ip2 {
                let m2 = synthetic_mac(ip2);
                if m == m2 {
                    assert(m2[6] == hex2(a2)[0] && m2[7] == hex2(a2)[1]);
                    assert(m2[9] == hex2(b2)[0] && m2[10] == hex2(b2)[1]);
                    assert(m2[12] == hex2(c2)[0] && m2[13] == hex2(c2)[1]);
                    assert(m2[15] == hex2(d2)[0] && m2[16] == hex2(d2)[1]);
                    assert(hex2(a) =~= hex2(a2));
                    assert(hex2(b) =~= hex2(b2));
                    assert(hex2(c) =~= hex2(c2));
                    assert(hex2(d) =~= hex2(d2));
                    lemma_hex2_injective(a, a2);
                    lemma_hex2_injective(b, b2);
                    lemma_hex2_injective(c, c2);
                    lemma_hex2_injective(d, d2);
                }
            }
        },
        IpAddress::V6(..) => {},
    }
}


/// The value of an upper-case hexadecimal digit.
pub open spec fn hex_value(c: char) -> int {
    if '0' <= c && c <= '9' {
        c as int - 48
    } else {
        c as int - 55
    }
}

/// Octet `k` of a colon-separated MAC string.
pub open spec fn mac_octet(m: Seq<char>, k: int) -> int {
    hex_value(m[3 * k]) * 16 + hex_value(m[3 * k + 1])
}

/// Read back as a MAC, the identifier derived from an IPv4 address is
/// `02:00` followed by the address's four octets in order.
pub proof fn lemma_synthetic_mac_octets(a: u8, b: u8, c: u8, d: u8)
    ensures
        ({
            let m = synthetic_mac(IpAddress::V4(a, b, c, d));
            &&& mac_octet(m, 0) == 2
            &&& mac_octet(m, 1) == 0
            &&& mac_octet(m, 2) == a
            &&& mac_octet(m, 3) == b
            &&& mac_octet(m, 4) == c
            &&& mac_octet(m, 5) == d
        }),
{
    reveal_strlit("02:00:");
    reveal_strlit(":");
    let m = synthetic_mac(IpAddress::V4(a, b, c, d));
    assert(m[0] == '0' && m[1] == '2' && m[3] == '0' && m[4] == '0');
    assert(m[6] == hex2(a)[0] && m[7] == hex2(a)[1]);
    assert(m[9] == hex2(b)[0] && m[10] == hex2(b)[1]);
    assert(m[12] == hex2(c)[0] && m[13] == hex2(c)[1]);
    assert(m[15] == hex2(d)[0] && m[16] == hex2(d)[1]);
}

} // verus!
