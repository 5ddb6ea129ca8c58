use airsend::discovery::{Device, DeviceCache, DeviceKind};
use airsend::net::IpAddress;

fn props(pairs: &[(&str, &str)]) -> Vec<(String, String)> {
    pairs.iter().map(|(k, v)| (k.to_string(), v.to_string())).collect()
}

fn resolved(fullname: &str, pairs: &[(&str, &str)]) -> Device {
    Device::from_resolved(
        fullname,
        "living-room.local.",
        7000,
        vec![IpAddress::V4(192, 168, 1, 20)],
        &props(pairs),
    )
}

#[test]
fn model_prefixes_select_the_device_kind() {
    assert_eq!(DeviceKind::from_model(Some("AudioAccessory5,1")), DeviceKind::HomePod);
    assert_eq!(DeviceKind::from_model(Some("AppleTV6,2")), DeviceKind::AppleTv);
    assert_eq!(DeviceKind::from_model(Some("AirPort10,115")), DeviceKind::AirportExpress);
    assert_eq!(DeviceKind::from_model(Some("MacBookPro18,3")), DeviceKind::OtherAirPlay);
    assert_eq!(DeviceKind::from_model(None), DeviceKind::OtherAirPlay);
}

#[test]
fn model_prefix_is_case_sensitive_and_anchored() {
    assert_eq!(DeviceKind::from_model(Some("audioaccessory1,1")), DeviceKind::OtherAirPlay);
    assert_eq!(DeviceKind::from_model(Some("XAppleTV")), DeviceKind::OtherAirPlay);
    assert_eq!(DeviceKind::from_model(Some("AudioAccessor")), DeviceKind::OtherAirPlay);
    assert_eq!(DeviceKind::from_model(Some("")), DeviceKind::OtherAirPlay);
}

#[test]
fn resolved_homepod_record() {
    let d = resolved(
        "Living Room._airplay._tcp.local.",
        &[("model", "AudioAccessory5,1"), ("features", "0x4A7FCA00,0x3C354BD0"), ("srcvers", "770.8.1")],
    );
    assert_eq!(d.id, "Living Room._airplay._tcp.local.");
    assert_eq!(d.name, "Living Room");
    assert_eq!(d.host, "living-room.local.");
    assert_eq!(d.port, 7000);
    assert_eq!(d.addresses, vec![IpAddress::V4(192, 168, 1, 20)]);
    assert_eq!(d.kind, DeviceKind::HomePod);
    assert_eq!(d.model.as_deref(), Some("AudioAccessory5,1"));
    assert_eq!(d.features.as_deref(), Some("0x4A7FCA00,0x3C354BD0"));
    assert!(d.supports_airplay2);
}

#[test]
fn name_without_dot_is_the_whole_service_name() {
    let d = resolved("Kitchen", &[]);
    assert_eq!(d.name, "Kitchen");
    assert_eq!(d.kind, DeviceKind::OtherAirPlay);
    assert_eq!(d.model, None);
    assert_eq!(d.features, None);
    assert!(!d.supports_airplay2);
}

#[test]
fn leading_dot_gives_empty_name() {
    let d = resolved(".hidden._raop._tcp.local.", &[]);
    assert_eq!(d.name, "");
}

#[test]
fn short_feature_key_is_used_when_long_one_is_absent() {
    let d = resolved("A._raop._tcp.local.", &[("ft", "0x5A7FFFF7,0x1E")]);
    assert_eq!(d.features.as_deref(), Some("0x5A7FFFF7,0x1E"));
    assert!(d.supports_airplay2);
}

#[test]
fn long_feature_key_wins_over_short_one() {
    let d = resolved("A._raop._tcp.local.", &[("ft", "0x1"), ("features", "77")]);
    assert_eq!(d.features.as_deref(), Some("77"));
    assert!(!d.supports_airplay2);
}

#[test]
fn source_version_three_means_airplay2() {
    let d = resolved("A._airplay._tcp.local.", &[("srcvers", "366.0"), ("features", "5")]);
    assert!(d.supports_airplay2);
    let old = resolved("B._airplay._tcp.local.", &[("srcvers", "220.68"), ("features", "5")]);
    assert!(!old.supports_airplay2);
}

#[test]
fn repeated_txt_key_last_value_wins() {
    let d = resolved("A._airplay._tcp.local.", &[("model", "AppleTV5,3"), ("model", "AirPort10,115")]);
    assert_eq!(d.model.as_deref(), Some("AirPort10,115"));
    assert_eq!(d.kind, DeviceKind::AirportExpress);
}

#[test]
fn cache_keeps_one_record_per_id_and_latest_wins() {
    let mut cache = DeviceCache::new();
    assert_eq!(cache.len(), 0);
    cache.insert(resolved("A._airplay._tcp.local.", &[("model", "AppleTV5,3")]));
    cache.insert(resolved("B._airplay._tcp.local.", &[]));
    assert_eq!(cache.len(), 2);
    cache.insert(resolved("A._airplay._tcp.local.", &[("model", "AudioAccessory1,1")]));
    assert_eq!(cache.len(), 2);
    let a = cache.get("A._airplay._tcp.local.").expect("A is cached");
    assert_eq!(a.kind, DeviceKind::HomePod);
    assert!(cache.get("C._airplay._tcp.local.").is_none());
    let all = cache.into_devices();
    let ids: Vec<&str> = all.iter().map(|d| d.id.as_str()).collect();
    assert_eq!(ids, vec!["A._airplay._tcp.local.", "B._airplay._tcp.local."]);
}

#[test]
fn duplicate_copies_every_field() {
    let d = resolved("A._airplay._tcp.local.", &[("model", "AppleTV5,3"), ("ft", "0x1")]);
    let c = d.duplicate();
    assert_eq!(c.id, d.id);
    assert_eq!(c.name, d.name);
    assert_eq!(c.addresses, d.addresses);
    assert_eq!(c.model, d.model);
    assert_eq!(c.features, d.features);
    assert_eq!(c.supports_airplay2, d.supports_airplay2);
}

#[test]
fn airtunes_server_header_marks_airplay2() {
    let mut d = resolved("10.0.0.5", &[]);
    d.apply_server_header(Some("AirTunes/770.8.1"));
    assert_eq!(d.features.as_deref(), Some("AirTunes/770.8.1"));
    assert!(d.supports_airplay2);

    let mut other = resolved("10.0.0.6", &[]);
    other.apply_server_header(Some("nginx"));
    assert_eq!(other.features.as_deref(), Some("nginx"));
    assert!(!other.supports_airplay2);

    let mut untouched = resolved("10.0.0.7", &[("features", "0x1")]);
    untouched.apply_server_header(None);
    assert_eq!(untouched.features.as_deref(), Some("0x1"));
    assert!(untouched.supports_airplay2);
}
