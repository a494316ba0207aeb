use volume_limiter::audio::AudioDeviceConfig;
use volume_limiter::data::{init_device_data, read_device_data, write_device_data};
use volume_limiter::volume::VOLUME_SCALE;

fn config(global: u32, overrides: &[(&str, u32)]) -> AudioDeviceConfig {
    AudioDeviceConfig {
        global_max_volume: global,
        device_max_volumes: overrides.iter().map(|(k, v)| (k.to_string(), *v)).collect(),
    }
}

#[test]
fn default_record_is_full_volume_with_no_overrides() {
    let c = AudioDeviceConfig::default();
    assert_eq!(c.global_max_volume, VOLUME_SCALE);
    assert!(c.device_max_volumes.is_empty());
}

#[test]
fn writes_default_record_canonically() {
    let text = write_device_data(&AudioDeviceConfig::default());
    assert_eq!(text, "{\"global_max_volume\":1.000000,\"device_max_volumes\":{}}");
}

#[test]
fn writes_overrides_with_six_decimal_places() {
    let text = write_device_data(&config(500_000, &[("a", 300_000), ("b", 7)]));
    assert_eq!(
        text,
        "{\"global_max_volume\":0.500000,\"device_max_volumes\":{\"a\":0.300000,\"b\":0.000007}}"
    );
}

#[test]
fn escapes_quotes_and_backslashes_in_ids() {
    let text = write_device_data(&config(1_000_000, &[("SWD\\MMDEVAPI\\{0}.\"x\"", 250_000)]));
    assert_eq!(
        text,
        "{\"global_max_volume\":1.000000,\"device_max_volumes\":{\"SWD\\\\MMDEVAPI\\\\{0}.\\\"x\\\"\":0.250000}}"
    );
}

#[test]
fn round_trip_preserves_the_record() {
    let c = config(
        500_000,
        &[
            ("SWD\\MMDEVAPI\\{0.0.0.00000000}", 300_000),
            ("plain id with spaces", 0),
            ("quoted \"name\"", 1_000_000),
        ],
    );
    let reloaded = read_device_data(write_device_data(&c).as_str());
    assert_eq!(reloaded, Some(c));
}

#[test]
fn round_trip_preserves_the_empty_record() {
    let c = config(1_000_000, &[]);
    let reloaded = read_device_data(write_device_data(&c).as_str());
    assert_eq!(reloaded, Some(c));
}

#[test]
fn reads_back_a_canonical_text() {
    let parsed =
        read_device_data("{\"global_max_volume\":0.250000,\"device_max_volumes\":{\"a\":0.100000}}");
    assert_eq!(parsed, Some(config(250_000, &[("a", 100_000)])));
}

#[test]
fn rejects_malformed_texts() {
    assert_eq!(read_device_data(""), None);
    assert_eq!(read_device_data("{}"), None);
    assert_eq!(read_device_data("{\"global_max_volume\":0.5}"), None);
    // out-of-range volume
    assert_eq!(
        read_device_data("{\"global_max_volume\":9.999999,\"device_max_volumes\":{}}"),
        None
    );
    // trailing garbage
    assert_eq!(
        read_device_data("{\"global_max_volume\":1.000000,\"device_max_volumes\":{}} "),
        None
    );
    // unterminated id
    assert_eq!(
        read_device_data("{\"global_max_volume\":1.000000,\"device_max_volumes\":{\"a"),
        None
    );
}

#[test]
fn rejects_duplicate_override_keys() {
    assert_eq!(
        read_device_data(
            "{\"global_max_volume\":1.000000,\"device_max_volumes\":{\"a\":0.100000,\"a\":0.200000}}"
        ),
        None
    );
}

#[test]
fn substitutes_the_default_record_for_malformed_text() {
    let c = init_device_data("not a record");
    assert_eq!(c, AudioDeviceConfig::default());
    let kept = init_device_data("{\"global_max_volume\":0.500000,\"device_max_volumes\":{}}");
    assert_eq!(kept, config(500_000, &[]));
}
