use airsend::capture::{require_stereo, CaptureError, CaptureFormat};
use airsend::pulse::{
    available, capture_input_name, default_monitor_from_info, monitor_or_default, parec_args, pick_monitor, which,
};

#[test]
fn which_returns_first_existing_candidate() {
    let found = which(Some("/usr/local/bin:/usr/bin:/bin"), "parec", |p: &str| {
        p == "/usr/bin/parec" || p == "/bin/parec"
    });
    assert_eq!(found.as_deref(), Some("/usr/bin/parec"));
}

#[test]
fn which_joins_like_paths() {
    let seen = std::cell::RefCell::new(Vec::new());
    let found = which(Some("/opt/:::rel"), "parec", |p: &str| {
        seen.borrow_mut().push(p.to_string());
        false
    });
    assert_eq!(found, None);
    assert_eq!(*seen.borrow(), vec!["/opt/parec", "parec", "parec", "rel/parec"]);
}

#[test]
fn which_with_absolute_binary_ignores_directories() {
    let found = which(Some("/usr/bin"), "/sbin/tool", |p: &str| p == "/sbin/tool");
    assert_eq!(found.as_deref(), Some("/sbin/tool"));
}

#[test]
fn which_without_path_finds_nothing() {
    assert_eq!(which(None, "parec", |_p: &str| true), None);
}

#[test]
fn available_checks_for_parec() {
    assert!(available(Some("/bin:/usr/bin"), |p: &str| p == "/usr/bin/parec"));
    assert!(!available(Some("/bin:/usr/bin"), |p: &str| p == "/usr/bin/pactl"));
    assert!(!available(None, |_p: &str| true));
}

#[test]
fn default_sink_monitor_from_pactl_info() {
    let info = "Server String: /run/user/1000/pulse/native\n\
                Server Name: PulseAudio (on PipeWire 1.0.5)\n\
                Default Sink: alsa_output.pci-0000_00_1f.3.analog-stereo\n\
                Default Source: alsa_input.pci-0000_00_1f.3.analog-stereo\n";
    assert_eq!(
        default_monitor_from_info(info).as_deref(),
        Some("alsa_output.pci-0000_00_1f.3.analog-stereo.monitor")
    );
}

#[test]
fn default_sink_line_is_trimmed_and_crlf_tolerated() {
    let info = "Default Source: x\r\nDefault Sink:   bluez_sink.AA  \r\n";
    assert_eq!(default_monitor_from_info(info).as_deref(), Some("bluez_sink.AA.monitor"));
}

#[test]
fn no_default_sink_line() {
    assert_eq!(default_monitor_from_info("Server Name: x\n Default Sink: y\n"), None);
    assert_eq!(default_monitor_from_info(""), None);
}

#[test]
fn first_default_sink_line_wins() {
    let info = "Default Sink: first\nDefault Sink: second";
    assert_eq!(default_monitor_from_info(info).as_deref(), Some("first.monitor"));
}

#[test]
fn monitor_falls_back_to_alias() {
    assert_eq!(monitor_or_default(None), "@DEFAULT_MONITOR@");
    assert_eq!(monitor_or_default(Some("sink.monitor".to_string())), "sink.monitor");
}

#[test]
fn parec_command_line() {
    let args = parec_args(44_100, "sink.monitor");
    assert_eq!(
        args,
        vec![
            "--format=s16le",
            "--rate=44100",
            "--channels=2",
            "--client-name=ConexionAirPlay",
            "--device=sink.monitor",
            "--latency-msec=5",
        ]
    );
    assert_eq!(parec_args(0, "d")[1], "--rate=0");
    assert_eq!(parec_args(u32::MAX, "d")[1], "--rate=4294967295");
}

#[test]
fn only_stereo_is_accepted() {
    assert!(require_stereo(CaptureFormat::airplay_default()).is_ok());
    match require_stereo(CaptureFormat { sample_rate: 48_000, channels: 1 }) {
        Err(CaptureError::UnsupportedConfig { wanted, channels }) => {
            assert_eq!(wanted, 48_000);
            assert_eq!(channels, 1);
        }
        _ => panic!("mono must be refused"),
    }
}

#[test]
fn monitor_device_is_picked_case_insensitively() {
    let names = vec![
        "Built-in Audio Analog Stereo".to_string(),
        "Monitor of Built-in Audio Analog Stereo".to_string(),
        "HDMI monitor".to_string(),
    ];
    assert_eq!(pick_monitor(&names), Some(1));
    assert_eq!(pick_monitor(&vec!["Mic".to_string(), "MONİTOR".to_string()]), None);
    assert_eq!(pick_monitor(&vec!["x.MONITOR".to_string()]), Some(0));
    assert_eq!(pick_monitor(&Vec::new()), None);
}

#[test]
fn cpal_input_name_prefers_the_monitor_then_the_default_input() {
    let s = |x: &str| Some(x.to_string());
    assert_eq!(capture_input_name(s("Monitor of Built-in Audio"), s("HDA Intel")), "Monitor of Built-in Audio");
    assert_eq!(capture_input_name(None, s("HDA Intel")), "HDA Intel");
    assert_eq!(capture_input_name(s(""), s("HDA Intel")), "HDA Intel");
    assert_eq!(capture_input_name(None, None), "default");
}
