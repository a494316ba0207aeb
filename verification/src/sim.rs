//! An in-memory backend: render endpoints held as plain values.
//!
//! Hosts whose native audio API is platform code outside this crate can
//! still drive the controller; this backend also gives the capability
//! traits an implementation whose contracts are verified rather than
//! assumed.

use vstd::prelude::*;

use crate::audio::{AudioDevice, AudioDeviceEnumerator};
use crate::volume::{spec_min_volume, VOLUME_SCALE};

verus! {

/// One in-memory render endpoint.
#[derive(Clone)]
pub struct SimAudioDevice {
    id: String,
    name: String,
    level: u32,
}

impl SimAudioDevice {
    /// A device reporting the given id, name and volume; a level above
    /// full scale reads back as full scale.
    pub fn new(id: String, name: String, level: u32) -> (r: Self)
        ensures
            r.volume() == spec_min_volume(level, VOLUME_SCALE),
            r.id() == id@,
            r.name() == name@,
    {
        SimAudioDevice { id, name, level }
    }
}

impl AudioDevice for SimAudioDevice {
    /// The reported volume: the stored level, capped at full scale.
    closed spec fn volume(&self) -> int {
        spec_min_volume(self.level, VOLUME_SCALE) as int
    }

    /// The stored id.
    closed spec fn id(&self) -> Seq<char> {
        self.id@
    }

    /// The stored name.
    closed spec fn name(&self) -> Seq<char> {
        self.name@
    }

    fn get_id(&self) -> (r: Result<String, String>) {
        Ok(self.id.clone())
    }

    fn get_name(&self) -> (r: Result<String, String>) {
        Ok(self.name.clone())
    }

    fn get_volume(&self) -> (r: Result<u32, String>) {
        if self.level <= VOLUME_SCALE {
            Ok(self.level)
        } else {
            Ok(VOLUME_SCALE)
        }
    }

    fn set_volume(&mut self, volume: u32) -> (r: Result<(), String>) {
        self.level = volume;
        Ok(())
    }
}

/// Hands out the same fixed set of devices on every enumeration call.
pub struct SimAudioDeviceEnumerator {
    devices: Vec<SimAudioDevice>,
}

impl SimAudioDeviceEnumerator {
    /// The fixed batch that every enumeration call reports.
    pub closed spec fn batch(self) -> Seq<SimAudioDevice> {
        self.devices@
    }

    pub fn new(devices: Vec<SimAudioDevice>) -> (r: Self)
        ensures
            r.batch() == devices@,
    {
        SimAudioDeviceEnumerator { devices }
    }
}

impl AudioDeviceEnumerator<SimAudioDevice> for SimAudioDeviceEnumerator {
    fn init() -> (r: Result<Self, String>) {
        Ok(SimAudioDeviceEnumerator { devices: Vec::new() })
    }

    fn get_devices(&self) -> (r: Result<Vec<SimAudioDevice>, String>) {
        Ok(self.devices.clone())
    }
}

} // verus!
