//! Device records built from mDNS service announcements, and the cache that
//! keeps one record per device identifier.

use vstd::prelude::*;

use crate::net::IpAddress;
use crate::text::{
    chars_of, contains, contains_lowered, first_segment, has_prefix, has_substring,
    has_substring_lowered, lemma_segment_len, lemma_segment_props, starts_with, string_from,
};

verus! {

/// The family of an AirPlay receiver, told apart by its advertised model.
#[derive(Clone, Copy, Debug, PartialEq, Eq, Structural)]
pub enum DeviceKind {
    HomePod,
    AppleTv,
    AirportExpress,
    OtherAirPlay,
}

/// The character model of an optional string slice.
pub open spec fn opt_str_view(s: Option<&str>) -> Option<Seq<char>> {
    match s {
        Some(x) => Some(x@),
        None => None,
    }
}

/// The character model of an optional `String`.
pub open spec fn opt_string_view(s: Option<String>) -> Option<Seq<char>> {
    match s {
        Some(x) => Some(x@),
        None => None,
    }
}

/// The device family that a model string announces: `AudioAccessory…` is a
/// HomePod, `AppleTV…` an Apple TV, `AirPort…` an AirPort Express.
pub open spec fn kind_for_model(model: Option<Seq<char>>) -> DeviceKind {
    match model {
        Some(m) => if has_prefix(m, "AudioAccessory"@) {
            DeviceKind::HomePod
        } else if has_prefix(m, "AppleTV"@) {
            DeviceKind::AppleTv
        } else if has_prefix(m, "AirPort"@) {
            DeviceKind::AirportExpress
        } else {
            DeviceKind::OtherAirPlay
        },
        None => DeviceKind::OtherAirPlay,
    }
}

impl DeviceKind {
    /// Classifies a device by the `model` entry of its TXT record.
    pub fn from_model(model: Option<&str>) -> (kind: DeviceKind)
        ensures
            kind == kind_for_model(opt_str_view(model)),
    {
        match model {
            Some(m) => {
                let mv = chars_of(m);
                if starts_with(&mv, &chars_of("AudioAccessory")) {
                    DeviceKind::HomePod
                } else if starts_with(&mv, &chars_of("AppleTV")) {
                    DeviceKind::AppleTv
                } else if starts_with(&mv, &chars_of("AirPort")) {
                    DeviceKind::AirportExpress
                } else {
                    DeviceKind::OtherAirPlay
                }
            },
            None => DeviceKind::OtherAirPlay,
        }
    }
}

/// An AirPlay receiver found on the network.
#[derive(Debug)]
pub struct Device {
    pub id: String,
    pub name: String,
    pub host: String,
    pub addresses: Vec<IpAddress>,
    pub port: u16,
    pub kind: DeviceKind,
    pub model: Option<String>,
    pub features: Option<String>,
    pub supports_airplay2: bool,
}

/// The mathematical model of a [`Device`].
pub struct DeviceView {
    pub id: Seq<char>,
    pub name: Seq<char>,
    pub host: Seq<char>,
    pub addresses: Seq<IpAddress>,
    pub port: u16,
    pub kind: DeviceKind,
    pub model: Option<Seq<char>>,
    pub features: Option<Seq<char>>,
    pub supports_airplay2: bool,
}

impl View for Device {
    type V = DeviceView;

    open spec fn view(&self) -> DeviceView {
        DeviceView {
            id: self.id@,
            name: self.name@,
            host: self.host@,
            addresses: self.addresses@,
            port: self.port,
            kind: self.kind,
            model: opt_string_view(self.model),
            features: opt_string_view(self.features),
            supports_airplay2: self.supports_airplay2,
        }
    }
}

/// The character model of TXT properties, as (key, value) pairs in the order
/// in which they were announced.
pub open spec fn txt_view(props: Seq<(String, String)>) -> Seq<(Seq<char>, Seq<char>)> {
    props.map_values(|p: (String, String)| (p.0@, p.1@))
}

/// The value of `key` in a TXT record: when a key repeats, the last
/// announcement wins, as when the properties are collected into a map.
pub open spec fn txt_lookup(props: Seq<(Seq<char>, Seq<char>)>, key: Seq<char>) -> Option<
    Seq<char>,
>
    decreases props.len(),
{
    if props.len() == 0 {
        None
    } else if props.last().0 == key {
        Some(props.last().1)
    } else {
        txt_lookup(props.drop_last(), key)
    }
}

/// The feature string of a TXT record: `features`, else the short key `ft`.
pub open spec fn txt_features(txt: Seq<(Seq<char>, Seq<char>)>) -> Option<Seq<char>> {
    match txt_lookup(txt, "features"@) {
        Some(f) => Some(f),
        None => txt_lookup(txt, "ft"@),
    }
}

/// Whether a TXT record announces AirPlay 2: a source version starting
/// with `3`, or a feature string holding a hexadecimal `0x` bit mask.
pub open spec fn txt_supports_airplay2(txt: Seq<(Seq<char>, Seq<char>)>) -> bool {
    (match txt_lookup(txt, "srcvers"@) {
        Some(v) => has_prefix(v, "3"@),
        None => false,
    }) || (match txt_features(txt) {
        Some(f) => contains(f, "0x"@),
        None => false,
    })
}

/// The device record that a resolved service announcement describes.
pub open spec fn resolved_device(
    fullname: Seq<char>,
    hostname: Seq<char>,
    port: u16,
    addresses: Seq<IpAddress>,
    txt: Seq<(Seq<char>, Seq<char>)>,
) -> DeviceView {
    DeviceView {
        id: fullname,
        name: first_segment(fullname, '.'),
        host: hostname,
        addresses: addresses,
        port: port,
        kind: kind_for_model(txt_lookup(txt, "model"@)),
        model: txt_lookup(txt, "model"@),
        features: txt_features(txt),
        supports_airplay2: txt_supports_airplay2(txt),
    }
}

/// The value of `key` among TXT properties; the last announcement of a
/// repeated key wins.
pub fn txt_get(props: &Vec<(String, String)>, key: &str) -> (res: Option<String>)
    ensures
        opt_string_view(res) == txt_lookup(txt_view(props@), key@),
{
    let ghost tv = txt_view(props@);
    let kv = chars_of(key);
    let mut i: usize = props.len();
    assert(tv.take(i as int) =~= tv);
    while i > 0
        invariant
            i <= props@.len(),
            tv == txt_view(props@),
            kv@ == key@,
            txt_lookup(tv, key@) == txt_lookup(tv.take(i as int), key@),
        decreases i,
    {
        let ghost pre = tv.take(i as int);
        assert(pre.drop_last() =~= tv.take(i - 1));
        assert(pre.last() == (props@[i - 1].0@, props@[i - 1].1@));
        let pk = chars_of(props[i - 1].0.as_str());
        if pk.len() == kv.len() && starts_with(&pk, &kv) {
            assert(pk@ =~= kv@);
            return Some(props[i - 1].1.clone());
        }
        assert(pk@ != kv@) by {
            if pk@ == kv@ {
                assert(pk@.subrange(0, kv@.len() as int) =~= kv@);
            }
        }
        i -= 1;
    }
    None
}

/// The part of `s` before its first `.`.
fn first_label(s: &str) -> (res: String)
    ensures
        res@ == first_segment(s@, '.'),
{
    let sv = chars_of(s);
    let mut out: Vec<char> = Vec::new();
    let mut i: usize = 0;
    while i < sv.len() && sv[i] != '.'
        invariant
            i <= sv@.len(),
            sv@ == s@,
            out@ == sv@.take(i as int),
            forall|j: int| 0 <= j < i ==> sv@[j] != '.',
        decreases sv@.len() - i,
    {
        out.push(sv[i]);
        assert(sv@.take(i + 1) =~= sv@.take(i as int).push(sv@[i as int]));
        i += 1;
    }
    proof {
        lemma_segment_len(sv@, '.', i as int);
    }
    string_from(&out)
}

impl Device {
    /// The device record of a resolved mDNS service announcement: its full
    /// service name, host name, port, addresses and TXT properties.
    pub fn from_resolved(
        fullname: &str,
        hostname: &str,
        port: u16,
        addresses: Vec<IpAddress>,
        txt: &Vec<(String, String)>,
    ) -> (dev: Device)
        ensures
            dev@ == resolved_device(fullname@, hostname@, port, addresses@, txt_view(txt@)),
    {
        let model = txt_get(txt, "model");
        let features = match txt_get(txt, "features") {
            Some(f) => Some(f),
            None => txt_get(txt, "ft"),
        };
        let from_version = match txt_get(txt, "srcvers") {
            Some(v) => starts_with(&chars_of(v.as_str()), &chars_of("3")),
            None => false,
        };
        let from_features = match &features {
            Some(f) => has_substring(&chars_of(f.as_str()), &chars_of("0x")),
            None => false,
        };
        let kind = match &model {
            Some(m) => DeviceKind::from_model(Some(m.as_str())),
            None => DeviceKind::from_model(None),
        };
        Device {
            id: string_from(&chars_of(fullname)),
            name: first_label(fullname),
            host: string_from(&chars_of(hostname)),
            addresses,
            port,
            kind,
            model,
            features,
            supports_airplay2: from_version || from_features,
        }
    }

    /// A copy of this record.
    pub fn duplicate(&self) -> (res: Device)
        ensures
            res@ == self@,
    {
        Device {
            id: self.id.clone(),
            name: self.name.clone(),
            host: self.host.clone(),
            addresses: copy_addresses(&self.addresses),
            port: self.port,
            kind: self.kind,
            model: clone_opt(&self.model),
            features: clone_opt(&self.features),
            supports_airplay2: self.supports_airplay2,
        }
    }
}

fn clone_opt(s: &Option<String>) -> (res: Option<String>)
    ensures
        opt_string_view(res) == opt_string_view(*s),
{
    match s {
        Some(x) => Some(x.clone()),
        None => None,
    }
}

fn copy_addresses(a: &Vec<IpAddress>) -> (res: Vec<IpAddress>)
    ensures
        res@ == a@,
{
    let mut res: Vec<IpAddress> = Vec::new();
    for i in 0..a.len()
        invariant
            res@ == a@.take(i as int),
    {
        res.push(a[i]);
        assert(a@.take(i + 1) =~= a@.take(i as int).push(a@[i as int]));
    }
    assert(a@.take(a@.len() as int) =~= a@);
    res
}

/// The identifiers of the records in `s` are pairwise distinct.
pub open spec fn ids_unique(s: Seq<DeviceView>) -> bool {
    forall|i: int, j: int|
        0 <= i < s.len() && 0 <= j < s.len() && i != j ==> #[trigger] s[i].id != #[trigger] s[j].id
}

/// Some record in `s` has identifier `id`.
pub open spec fn has_id(s: Seq<DeviceView>, id: Seq<char>) -> bool {
    exists|i: int| 0 <= i < s.len() && #[trigger] s[i].id == id
}

/// The position of a record with identifier `id` in `s`.
pub open spec fn index_of_id(s: Seq<DeviceView>, id: Seq<char>) -> int {
    choose|i: int| 0 <= i < s.len() && #[trigger] s[i].id == id
}

/// The record with identifier `id` in `s`, if any.
pub open spec fn lookup_id(s: Seq<DeviceView>, id: Seq<char>) -> Option<DeviceView> {
    if has_id(s, id) {
        Some(s[index_of_id(s, id)])
    } else {
        None
    }
}

/// `s` after recording `d`: it replaces the record with the same identifier,
/// or is appended when there is none.
pub open spec fn upsert(s: Seq<DeviceView>, d: DeviceView) -> Seq<DeviceView> {
    if has_id(s, d.id) {
        s.update(index_of_id(s, d.id), d)
    } else {
        s.push(d)
    }
}

/// The devices seen so far, one record per device identifier; a device seen
/// again replaces its earlier record.
pub struct DeviceCache {
    devices: Vec<Device>,
}

impl View for DeviceCache {
    type V = Seq<DeviceView>;

    closed spec fn view(&self) -> Seq<DeviceView> {
        self.devices@.map_values(|d: Device| d@)
    }
}

impl DeviceCache {
    /// The cache's invariant: no identifier occurs twice.
    #[verifier::type_invariant]
    spec fn well_formed(self) -> bool {
        ids_unique(self@)
    }

    /// An empty cache.
    pub fn new() -> (res: DeviceCache)
        ensures
            res@ == Seq::<DeviceView>::empty(),
    {
        let res = DeviceCache { devices: Vec::new() };
        assert(res@ =~= Seq::<DeviceView>::empty());
        res
    }

    /// The number of distinct devices recorded.
    pub fn len(&self) -> (n: usize)
        ensures
            n == self@.len(),
    {
        self.devices.len()
    }

    /// Records `device`, replacing the record with the same identifier.
    pub fn insert(&mut self, device: Device)
        ensures
            final(self)@ == upsert(old(self)@, device@),
            ids_unique(final(self)@),
    {
        proof {
            use_type_invariant(&*self);
        }
        let ghost s = self@;
        let ghost d = device@;
        let idv = chars_of(device.id.as_str());
        let mut i: usize = 0;
        let n = self.devices.len();
        while i < n
            invariant
                n == self.devices@.len(),
                s == self@,
                s == old(self)@,
                ids_unique(s),
                d == device@,
                idv@ == device.id@,
                i <= n,
                forall|j: int| 0 <= j < i ==> #[trigger] s[j].id != d.id,
            decreases n - i,
        {
            let cur = chars_of(self.devices[i].id.as_str());
            assert(s[i as int].id == cur@);
            if cur.len() == idv.len() && starts_with(&cur, &idv) {
                assert(cur@ =~= idv@);
                assert(s[i as int].id == d.id);
                assert(has_id(s, d.id));
                assert(index_of_id(s, d.id) == i);
                let mut devs: Vec<Device> = Vec::new();
                std::mem::swap(&mut devs, &mut self.devices);
                devs.set(i, device);
                let ghost nv = devs@.map_values(|x: Device| x@);
                assert(nv =~= s.update(i as int, d));
                assert(ids_unique(nv)) by {
                    assert forall|a: int, b: int|
                        0 <= a < nv.len() && 0 <= b < nv.len() && a != b implies
                        #[trigger] nv[a].id != #[trigger] nv[b].id by {
                        assert(s[a].id != s[b].id);
                    }
                }
                *self = DeviceCache { devices: devs };
                return;
            }
            assert(cur@ != idv@) by {
                if cur@ == idv@ {
                    assert(cur@.subrange(0, idv@.len() as int) =~= idv@);
                }
            }
            i += 1;
        }
        assert(!has_id(s, d.id));
        let mut devs: Vec<Device> = Vec::new();
        std::mem::swap(&mut devs, &mut self.devices);
        devs.push(device);
        let ghost nv = devs@.map_values(|x: Device| x@);
        assert(nv =~= s.push(d));
        assert(ids_unique(nv));
        *self = DeviceCache { devices: devs };
    }

    /// The record of the device with identifier `id`.
    pub fn get(&self, id: &str) -> (res: Option<&Device>)
        ensures
            match res {
                Some(dev) => lookup_id(self@, id@) == Some(dev@),
                None => lookup_id(self@, id@) is None,
            },
    {
        proof {
            use_type_invariant(self);
        }
        let ghost s = self@;
        let idv = chars_of(id);
        let mut i: usize = 0;
        let n = self.devices.len();
        while i < n
            invariant
                n == self.devices@.len(),
                s == self@,
                ids_unique(s),
                idv@ == id@,
                i <= n,
                forall|j: int| 0 <= j < i ==> #[trigger] s[j].id != id@,
            decreases n - i,
        {
            let cur = chars_of(self.devices[i].id.as_str());
            assert(s[i as int].id == cur@);
            if cur.len() == idv.len() && starts_with(&cur, &idv) {
                assert(cur@ =~= idv@);
                assert(has_id(s, id@));
                assert(index_of_id(s, id@) == i);
                return Some(&self.devices[i]);
            }
            assert(cur@ != idv@) by {
                if cur@ == idv@ {
                    assert(cur@.subrange(0, idv@.len() as int) =~= idv@);
                }
            }
            i += 1;
        }
        None
    }

    /// Copies of the recorded devices, in the order in which they were
    /// first seen.
    pub fn snapshot(&self) -> (res: Vec<Device>)
        ensures
            res@.map_values(|d: Device| d@) == self@,
    {
        let mut res: Vec<Device> = Vec::new();
        for i in 0..self.devices.len()
            invariant
                res@.map_values(|d: Device| d@) == self@.take(i as int),
                self@ == self.devices@.map_values(|d: Device| d@),
        {
            let d = self.devices[i].duplicate();
            let ghost prev = res@;
            assert(self@[i as int] == self.devices@[i as int]@);
            res.push(d);
            assert(res@ == prev.push(d));
            assert(res@.map_values(|d: Device| d@) =~= prev.map_values(|d: Device| d@).push(d@));
            assert(self@.take(i + 1) =~= self@.take(i as int).push(self@[i as int]));
        }
        assert(self@.take(self@.len() as int) =~= self@);
        res
    }

    /// The recorded devices, in the order in which they were first seen.
    pub fn into_devices(self) -> (res: Vec<Device>)
        ensures
            res@.map_values(|d: Device| d@) == self@,
    {
        self.devices
    }
}

/// Recording a device makes it the answer for its identifier, leaves every
/// other identifier's answer as it was, keeps identifiers distinct, and
/// grows the cache exactly when the identifier was new.
pub proof fn lemma_upsert(s: Seq<DeviceView>, d: DeviceView)
    requires
        ids_unique(s),
    ensures
        ids_unique(upsert(s, d)),
        lookup_id(upsert(s, d), d.id) == Some(d),
        forall|id: Seq<char>| id != d.id ==> lookup_id(upsert(s, d), id) == lookup_id(s, id),
        upsert(s, d).len() == s.len() + (if has_id(s, d.id) {
            0int
        } else {
            1int
        }),
{
    let u = upsert(s, d);
    if has_id(s, d.id) {
        let k = index_of_id(s, d.id);
        assert(u[k].id == d.id);
    } else {
        assert(u[s.len() as int].id == d.id);
    }
    assert(has_id(u, d.id));
    let kd = index_of_id(u, d.id);
    assert(u[kd] == d);
    assert forall|id: Seq<char>| id != d.id implies lookup_id(u, id) == lookup_id(s, id) by {
        if has_id(s, id) {
            let j = index_of_id(s, id);
            assert(u[j].id == id);
            assert(has_id(u, id));
            let j2 = index_of_id(u, id);
            assert(j2 == j);
        }
        if has_id(u, id) {
            let j2 = index_of_id(u, id);
            assert(s[j2].id == id);
        }
    }
}

/// A device record after a manual probe of its address answered with the
/// HTTP `Server` header `server`: the header becomes the feature string,
/// and an AirTunes server marks the device as AirPlay 2 capable.
pub open spec fn with_server_header(d: DeviceView, server: Option<Seq<char>>) -> DeviceView {
    match server {
        None => d,
        Some(s) => DeviceView {
            features: Some(s),
            supports_airplay2: d.supports_airplay2 || contains_lowered(s, "airtunes"@),
            ..d
        },
    }
}

impl Device {
    /// Records what a manual probe learned from the receiver's `Server`
    /// header. The pattern is ASCII and no non-ASCII character lower-cases
    /// into it, so ASCII lower-casing finds exactly the matches that
    /// Unicode lower-casing finds.
    pub fn apply_server_header(&mut self, server: Option<&str>)
        ensures
            final(self)@ == with_server_header(old(self)@, opt_str_view(server)),
    {
        if let Some(s) = server {
            let sv = chars_of(s);
            self.features = Some(string_from(&sv));
            if has_substring_lowered(&sv, &chars_of("airtunes")) {
                self.supports_airplay2 = true;
            }
        }
    }
}

/// A model string is classified by its prefix alone: anything that starts
/// with `AudioAccessory` is a HomePod, with `AppleTV` an Apple TV, with
/// `AirPort` an AirPort Express; no model at all is some other receiver.
pub proof fn lemma_kind_by_prefix(rest: Seq<char>)
    ensures
        kind_for_model(Some("AudioAccessory"@ + rest)) == DeviceKind::HomePod,
        kind_for_model(Some("AppleTV"@ + rest)) == DeviceKind::AppleTv,
        kind_for_model(Some("AirPort"@ + rest)) == DeviceKind::AirportExpress,
        kind_for_model(None) == DeviceKind::OtherAirPlay,
{
    reveal_strlit("AudioAccessory");
    reveal_strlit("AppleTV");
    reveal_strlit("AirPort");
    let h = "AudioAccessory"@ + rest;
    let t = "AppleTV"@ + rest;
    let p = "AirPort"@ + rest;
    assert(h.subrange(0, 14) =~= "AudioAccessory"@);
    assert(t.subrange(0, 7) =~= "AppleTV"@);
    assert(p.subrange(0, 7) =~= "AirPort"@);
    if t.len() >= 14 {
        assert(t.subrange(0, 14)[1] != "AudioAccessory"@[1]);
    }
    if p.len() >= 14 {
        assert(p.subrange(0, 14)[1] != "AudioAccessory"@[1]);
    }
    assert(p.subrange(0, 7)[1] != "AppleTV"@[1]);
}

/// The display name of an announced service is its full name up to the
/// first `.`: a prefix of the full name that holds no `.`, and is either all
/// of it or followed by a `.`.
pub proof fn lemma_resolved_name(
    fullname: Seq<char>,
    hostname: Seq<char>,
    port: u16,
    addresses: Seq<IpAddress>,
    txt: Seq<(Seq<char>, Seq<char>)>,
)
    ensures
        ({
            let d = resolved_device(fullname, hostname, port, addresses, txt);
            let n = d.name;
            &&& n.len() <= fullname.len()
            &&& n == fullname.take(n.len() as int)
            &&& forall|k: int| 0 <= k < n.len() ==> #[trigger] n[k] != '.'
            &&& (n.len() == fullname.len() || fullname[n.len() as int] == '.')
            &&& d.id == fullname
            &&& d.kind == kind_for_model(d.model)
        }),
{
    lemma_segment_props(fullname, '.');
}


/// In a TXT record the last announcement of a key wins: announcing `key`
/// once more makes its value the answer, and leaves every other key's
/// answer as it was.
pub proof fn lemma_txt_last_wins(
    props: Seq<(Seq<char>, Seq<char>)>,
    key: Seq<char>,
    value: Seq<char>,
    other: Seq<char>,
)
    requires
        other != key,
    ensures
        txt_lookup(props.push((key, value)), key) == Some(value),
        txt_lookup(props.push((key, value)), other) == txt_lookup(props, other),
{
    assert(props.push((key, value)).drop_last() =~= props);
}

/// A key has no value exactly when no property announces it, and a value
/// that is found was announced for that key.
pub proof fn lemma_txt_lookup_found(props: Seq<(Seq<char>, Seq<char>)>, key: Seq<char>)
    ensures
        txt_lookup(props, key) is None <==> forall|i: int| 0 <= i < props.len() ==> #[trigger] props[i].0
            != key,
        txt_lookup(props, key) matches Some(v) ==> exists|i: int|
            0 <= i < props.len() && #[trigger] props[i] == (key, v),
    decreases props.len(),
{
    if props.len() > 0 {
        let rest = props.drop_last();
        lemma_txt_lookup_found(rest, key);
        if props.last().0 != key {
            if txt_lookup(rest, key) is None {
                assert forall|i: int| 0 <= i < props.len() implies #[trigger] props[i].0 != key by {
                    if i < props.len() - 1 {
                        assert(props[i] == rest[i]);
                    }
                }
            } else {
                let j = choose|j: int| 0 <= j < rest.len() && #[trigger] rest[j].0 == key;
                if let Some(v) = txt_lookup(rest, key) {
                    let i = choose|i: int| 0 <= i < rest.len() && #[trigger] rest[i] == (key, v);
                    assert(props[i] == rest[i]);
                }
                assert(props[j] == rest[j]);
            }
        } else {
            assert(props[props.len() - 1].0 == key);
            assert(props[props.len() - 1] == (key, props.last().1));
        }
    }
}

} // verus!
