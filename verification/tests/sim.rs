use volume_limiter::audio::{AudioDevice, AudioDeviceConfig};
use volume_limiter::controller::AudioController;
use volume_limiter::sim::{SimAudioDevice, SimAudioDeviceEnumerator};

#[test]
fn sim_device_reports_and_stores_volumes() {
    let mut d = SimAudioDevice::new("sim-0".to_string(), "Speakers".to_string(), 700_000);
    assert_eq!(d.get_id(), Ok("sim-0".to_string()));
    assert_eq!(d.get_name(), Ok("Speakers".to_string()));
    assert_eq!(d.get_volume(), Ok(700_000));
    assert_eq!(d.set_volume(200_000), Ok(()));
    assert_eq!(d.get_volume(), Ok(200_000));
}

#[test]
fn sim_device_caps_an_overlarge_initial_level() {
    let d = SimAudioDevice::new("sim-0".to_string(), "Speakers".to_string(), 5_000_000);
    assert_eq!(d.get_volume(), Ok(1_000_000));
}

#[test]
fn controller_enforces_limits_over_the_sim_backend() {
    let devices = vec![
        SimAudioDevice::new("sim-0".to_string(), "Speakers".to_string(), 800_000),
        SimAudioDevice::new("sim-1".to_string(), "Headphones".to_string(), 100_000),
    ];
    let e = SimAudioDeviceEnumerator::new(devices);
    let config = AudioDeviceConfig {
        global_max_volume: 500_000,
        device_max_volumes: Vec::new(),
    };
    let mut c = AudioController::with_enumerator(e, config);
    assert_eq!(c.update_devices(), Ok(true));
    assert_eq!(c.apply_volume_limits(), Ok(()));
    let infos = c.get_devices();
    assert_eq!(infos.len(), 2);
    // the enumerator hands out fresh copies, so a later refresh shows
    // the original levels again; the cache entries were enforced
    assert_eq!(c.apply_max_volume("sim-0"), Ok(()));
    assert_eq!(c.apply_max_volume("sim-1"), Ok(()));
}
