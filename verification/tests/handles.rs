use volume_limiter::handles::{
    AudioDeviceCollection, AudioDeviceVolume, IMMDeviceHandle, WasapiAudioDevice,
    WasapiAudioDeviceEnumerator, WinAudioDeviceEnumerator, WinAudioDeviceVolume,
};

/// Stands in for an opaque OS interface handle.
#[derive(Debug, Clone, PartialEq, Eq)]
struct FakeHandle(u32);

#[test]
fn device_handle_keeps_what_it_was_given() {
    let h = IMMDeviceHandle::new(FakeHandle(7));
    assert_eq!(h.into_inner(), FakeHandle(7));
}

#[test]
fn volume_shells_pair_the_handle_with_the_name() {
    let v = AudioDeviceVolume::from(FakeHandle(1), "Speakers".to_string());
    assert!(v.is_ok());
    let w = WinAudioDeviceVolume::new(FakeHandle(2), "Headphones".to_string());
    assert!(w.is_ok());
}

#[test]
fn collection_iteration_yields_devices_in_order() {
    let c = AudioDeviceCollection::new(vec![FakeHandle(1), FakeHandle(2), FakeHandle(3)]);
    let mut it = c.iter();
    assert_eq!(it.next(), Some(FakeHandle(1)));
    assert_eq!(it.next(), Some(FakeHandle(2)));
    assert_eq!(it.next(), Some(FakeHandle(3)));
    assert_eq!(it.next(), None);
    assert_eq!(it.next(), None);
}

#[test]
fn enumerator_shells_expose_their_handles() {
    let wasapi = WasapiAudioDeviceEnumerator { mm_device_enumerator: FakeHandle(4) };
    assert_eq!(wasapi.mm_device_enumerator, FakeHandle(4));
    let win = WinAudioDeviceEnumerator { imm_device_enumerator: FakeHandle(5) };
    assert_eq!(win.imm_device_enumerator, FakeHandle(5));
    let device = WasapiAudioDevice { mm_device: FakeHandle(6), volume_interface: FakeHandle(7) };
    assert_eq!(device.mm_device, FakeHandle(6));
    assert_eq!(device.volume_interface, FakeHandle(7));
}
