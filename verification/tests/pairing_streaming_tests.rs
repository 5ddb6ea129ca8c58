use airsend::logdir::{log_dir, windows_log_dir, UnixFlavor};
use airsend::net::IpAddress;
use airsend::pairing::{
    address_name_of, synthetic_mac_for, DeviceDescriptor, PairingError, DEFAULT_AIRPLAY_PORT,
    HOMEPOD_TRANSIENT_PIN,
};
use airsend::streaming::{
    live_stream_settings, pump_step, tone_packet_micros, tone_schedule, tone_total_frames,
    PumpEvent, PumpStep, StreamError, FEEDBACK_INTERVAL_SECS, QUEUE_CAPACITY,
};

fn descriptor(ip: IpAddress) -> DeviceDescriptor {
    DeviceDescriptor {
        ip,
        port: 7000,
        name: "HomePod".to_string(),
        mac: None,
        model: None,
        features: None,
    }
}

#[test]
fn transient_pin() {
    assert_eq!(HOMEPOD_TRANSIENT_PIN, "3939");
}

#[test]
fn synthetic_mac_from_ipv4() {
    assert_eq!(synthetic_mac_for(IpAddress::V4(192, 168, 1, 10)), "02:00:C0:A8:01:0A");
    assert_eq!(synthetic_mac_for(IpAddress::V4(0, 0, 0, 0)), "02:00:00:00:00:00");
    assert_eq!(synthetic_mac_for(IpAddress::V4(255, 15, 16, 171)), "02:00:FF:0F:10:AB");
}

#[test]
fn synthetic_mac_from_ipv6() {
    assert_eq!(
        synthetic_mac_for(IpAddress::V6(0xfe80, 0, 0, 0, 1, 2, 3, 4)),
        "02:00:00:00:00:01"
    );
}

#[test]
fn descriptor_defaults() {
    let t = descriptor(IpAddress::V4(10, 0, 0, 2)).pairing_target();
    assert_eq!(t.mac, "02:00:0A:00:00:02");
    assert_eq!(t.name, "HomePod");
    assert_eq!(t.model, "AudioAccessory5,1");
    assert_eq!(t.features, "0x4A7FCA00,0x3C354BD0");
    assert_eq!(t.ip, IpAddress::V4(10, 0, 0, 2));
    assert_eq!(t.port, 7000);
}

#[test]
fn descriptor_announced_values_win() {
    let mut d = descriptor(IpAddress::V4(10, 0, 0, 2));
    d.mac = Some("AA:BB:CC:DD:EE:FF".to_string());
    d.model = Some("AudioAccessory1,1".to_string());
    d.features = Some("0x1,0x2".to_string());
    let t = d.pairing_target();
    assert_eq!(t.mac, "AA:BB:CC:DD:EE:FF");
    assert_eq!(d.device_mac(), "AA:BB:CC:DD:EE:FF");
    assert_eq!(t.model, "AudioAccessory1,1");
    assert_eq!(t.features, "0x1,0x2");
}

#[test]
fn pairing_error_converts_to_stream_error() {
    let e: StreamError = PairingError::InvalidDeviceId("bad".to_string()).into();
    match e {
        StreamError::Pairing(PairingError::InvalidDeviceId(s)) => assert_eq!(s, "bad"),
        _ => panic!("wrong conversion"),
    }
}

#[test]
fn live_stream_settings_values() {
    let s = live_stream_settings();
    assert_eq!(s.sample_rate, 44_100);
    assert_eq!(s.bit_depth, 16);
    assert_eq!(s.channels, 2);
    assert_eq!(s.frames_per_packet, 352);
    assert_eq!(s.latency_min, 22_050);
    assert_eq!(s.latency_max, 132_300);
    assert!(s.realtime && s.ntp_timing && s.supports_dynamic_stream_id);
    assert_eq!(QUEUE_CAPACITY, 64);
    assert_eq!(FEEDBACK_INTERVAL_SECS, 2);
}

#[test]
fn tone_frame_count_and_pacing() {
    assert_eq!(tone_total_frames(44_100, 1_000), 44_100);
    assert_eq!(tone_total_frames(44_100, 1), 44);
    assert_eq!(tone_total_frames(44_100, 0), 0);
    assert_eq!(tone_packet_micros(44_100), 7_981);
    assert_eq!(tone_packet_micros(48_000), 7_333);
}

#[test]
fn tone_schedule_sums_to_total() {
    let plan = tone_schedule(44_100);
    assert_eq!(plan.len(), 126);
    assert!(plan[..125].iter().all(|&n| n == 352));
    assert_eq!(plan[125], 100);
    assert_eq!(plan.iter().sum::<usize>(), 44_100);
    assert_eq!(tone_schedule(704), vec![352, 352]);
    assert_eq!(tone_schedule(0), Vec::<usize>::new());
    assert_eq!(tone_schedule(5), vec![5]);
}

#[test]
fn pump_decisions() {
    match pump_step(PumpEvent::Frame(vec![1, 2, 3, 4]), 2, 44_100) {
        PumpStep::Forward(p) => {
            assert_eq!(p.samples, vec![1, 2, 3, 4]);
            assert_eq!(p.channels, 2);
            assert_eq!(p.sample_rate, 44_100);
        }
        _ => panic!("frames are forwarded"),
    }
    assert!(matches!(pump_step(PumpEvent::Timeout, 2, 44_100), PumpStep::Wait));
    assert!(matches!(pump_step(PumpEvent::Disconnected, 2, 44_100), PumpStep::CaptureLost));
}

#[test]
fn log_dir_locations() {
    assert_eq!(
        log_dir(UnixFlavor::MacOs, Some("/Users/ana"), Some("/x")).as_deref(),
        Some("/Users/ana/Library/Logs/ConexionAirPlay")
    );
    assert_eq!(log_dir(UnixFlavor::MacOs, None, Some("/x")), None);
    assert_eq!(
        log_dir(UnixFlavor::Other, Some("/home/ana"), Some("/state/")).as_deref(),
        Some("/state/ConexionAirPlay/logs")
    );
    assert_eq!(
        log_dir(UnixFlavor::Other, Some("/home/ana"), None).as_deref(),
        Some("/home/ana/.local/state/ConexionAirPlay/logs")
    );
    assert_eq!(log_dir(UnixFlavor::Other, None, None), None);
    assert_eq!(
        log_dir(UnixFlavor::Other, None, Some("")).as_deref(),
        Some("ConexionAirPlay/logs")
    );
}

#[test]
fn windows_log_dir_locations() {
    let w = |a: &str| windows_log_dir(Some(a));
    assert_eq!(
        w(r"C:\Users\ana\AppData\Roaming").as_deref(),
        Some(r"C:\Users\ana\AppData\Roaming\ConexionAirPlay\logs")
    );
    assert_eq!(w(r"C:\Roaming\").as_deref(), Some(r"C:\Roaming\ConexionAirPlay\logs"));
    assert_eq!(w("C:/Roaming/").as_deref(), Some(r"C:/Roaming/ConexionAirPlay\logs"));
    assert_eq!(w("C:").as_deref(), Some(r"C:ConexionAirPlay\logs"));
    assert_eq!(w("").as_deref(), Some(r"ConexionAirPlay\logs"));
    assert_eq!(
        w(r"\\?\C:\Users\\ana\").as_deref(),
        Some(r"\\?\C:\Users\ana\ConexionAirPlay\logs")
    );
    assert_eq!(
        w(r"\\?\UNC\srv\share\dir").as_deref(),
        Some(r"\\?\UNC\srv\share\dir\ConexionAirPlay\logs")
    );
    assert_eq!(windows_log_dir(None), None);
}

#[test]
fn address_only_receiver_gets_default_port_and_name() {
    let d = DeviceDescriptor::for_address(IpAddress::V4(192, 168, 1, 5), "192.168.1.5", None, None);
    assert_eq!(d.ip, IpAddress::V4(192, 168, 1, 5));
    assert_eq!(d.port, 7000);
    assert_eq!(DEFAULT_AIRPLAY_PORT, 7000);
    assert_eq!(d.name, "HomePod 192.168.1.5");
    assert!(d.mac.is_none() && d.model.is_none() && d.features.is_none());
}

#[test]
fn given_port_and_name_are_kept() {
    let d = DeviceDescriptor::for_address(
        IpAddress::V4(10, 0, 0, 2),
        "10.0.0.2",
        Some(7001),
        Some("Salón".to_string()),
    );
    assert_eq!(d.port, 7001);
    assert_eq!(d.name, "Salón");
    assert_eq!(address_name_of("fe80::1"), "HomePod fe80::1");
}
