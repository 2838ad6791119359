use capture_decode::net_tool::{
    nettool_init, nettool_start_test, nettool_stop_test, test_kind, NetToolConfig, RateInfo,
    RateMeter, StartError, TestKind,
};
use capture_decode::speed_test::{report_due, select_protocol, Protocol, SpeedTestConfig};
use capture_decode::wav_decoder::{SampleFormat, WavDecoder, WavError, WavFormat};

fn config(mode: &str, role: &str) -> NetToolConfig {
    NetToolConfig {
        mode: mode.to_string(),
        role: role.to_string(),
        address: "127.0.0.1".to_string(),
        port: 5001,
        interval: 1,
        duration: None,
    }
}

#[test]
fn tool_starts_idle() {
    assert!(!nettool_init().running());
}

#[test]
fn second_start_is_refused() {
    let mut state = nettool_init();
    assert_eq!(nettool_start_test(&mut state, &config("tcp", "client")), Ok(Some(TestKind::TcpClient)));
    assert!(state.running());
    assert_eq!(
        nettool_start_test(&mut state, &config("udp", "server")),
        Err(StartError::AlreadyRunning)
    );
    assert!(state.running());
    nettool_stop_test(&mut state);
    assert!(!state.running());
    assert_eq!(nettool_start_test(&mut state, &config("udp", "server")), Ok(Some(TestKind::UdpServer)));
    assert_eq!(StartError::AlreadyRunning.message(), "Test is already running");
}

#[test]
fn mode_and_role_name_the_test() {
    assert_eq!(test_kind("tcp", "client"), Some(TestKind::TcpClient));
    assert_eq!(test_kind("tcp", "server"), Some(TestKind::TcpServer));
    assert_eq!(test_kind("udp", "client"), Some(TestKind::UdpClient));
    assert_eq!(test_kind("udp", "server"), Some(TestKind::UdpServer));
    assert_eq!(test_kind("TCP", "client"), None);
    assert_eq!(test_kind("tcp", "peer"), None);
    assert_eq!(test_kind("", ""), None);
}

#[test]
fn invalid_test_still_claims_the_tool() {
    let mut state = nettool_init();
    assert_eq!(nettool_start_test(&mut state, &config("sctp", "client")), Ok(None));
    assert!(state.running());
}

#[test]
fn test_stops_when_stopped_or_out_of_time() {
    let mut state = nettool_init();
    assert!(state.stop_check(None, 0, 0));
    assert!(state.try_start());
    assert!(!state.try_start());
    assert!(!state.stop_check(None, 1_000_000, 5));
    assert!(!state.stop_check(Some(10), 9, 999_999_999));
    assert!(!state.stop_check(Some(10), 10, 0));
    assert!(state.running());
    assert!(state.stop_check(Some(10), 10, 1));
    assert!(!state.running());
    assert!(state.try_start());
    assert!(state.stop_check(Some(10), 11, 0));
    assert!(!state.running());
}

#[test]
fn rate_is_reported_once_per_interval() {
    let mut meter = RateMeter::new();
    assert_eq!(meter.record(1024, 0, 2), None);
    assert_eq!(meter.record(1024, 1, 2), None);
    assert_eq!(meter.record(2048, 2, 2), Some(RateInfo { delta_bytes: 4096, rate: 2 }));
    assert_eq!(meter.record(1023, 5, 1), Some(RateInfo { delta_bytes: 1023, rate: 0 }));
    assert_eq!(meter.record(u64::MAX, 0, 1), None);
    assert_eq!(
        meter.record(5, 1, 1),
        Some(RateInfo { delta_bytes: u64::MAX, rate: u64::MAX / 1024 })
    );
}

fn speed(protocol: &str) -> SpeedTestConfig {
    SpeedTestConfig {
        protocol: protocol.to_string(),
        mode: "UploadOnly".to_string(),
        port: 9000,
        refresh_interval: 500,
        payload_size_kb: 64,
    }
}

#[test]
fn protocol_is_chosen_by_name() {
    assert_eq!(select_protocol(&speed("UDP")), Some(Protocol::Udp));
    assert_eq!(select_protocol(&speed("WebSocket")), Some(Protocol::WebSocket));
    assert_eq!(select_protocol(&speed("TCP")), None);
    assert_eq!(select_protocol(&speed("udp")), None);
    assert!(report_due(&speed("UDP"), 500));
    assert!(!report_due(&speed("UDP"), 499));
}

fn mono() -> WavFormat {
    WavFormat { channels: 1, sample_rate: 16000, bits_per_sample: 16, sample_format: SampleFormat::Int }
}

#[test]
fn only_mono_16_bit_integer_audio_is_taken() {
    assert_eq!(WavDecoder::validate_wav_format(&mono()), Ok(()));
    let real = WavFormat { sample_format: SampleFormat::Real, bits_per_sample: 32, channels: 2, ..mono() };
    assert_eq!(WavDecoder::validate_wav_format(&real), Err(WavError::NotInteger));
    let wide = WavFormat { bits_per_sample: 24, channels: 2, ..mono() };
    assert_eq!(WavDecoder::validate_wav_format(&wide), Err(WavError::NotSixteenBit));
    let stereo = WavFormat { channels: 2, ..mono() };
    assert_eq!(WavDecoder::validate_wav_format(&stereo), Err(WavError::NotMono));
    assert_eq!(WavError::NotMono.message(), "Only mono audio supported");
}

#[test]
fn samples_are_cut_into_chunks() {
    let samples: Vec<i16> = (0..7).collect();
    assert_eq!(
        WavDecoder::split_chunks(&samples, 3),
        vec![vec![0, 1, 2], vec![3, 4, 5], vec![6]]
    );
    assert_eq!(WavDecoder::split_chunks(&samples, 7), vec![samples.clone()]);
    assert_eq!(WavDecoder::split_chunks(&samples, 100), vec![samples.clone()]);
    assert_eq!(WavDecoder::split_chunks(&Vec::new(), 3), Vec::<Vec<i16>>::new());
    assert_eq!(WavDecoder::split_chunks(&vec![1, 2], 1), vec![vec![1], vec![2]]);
}
