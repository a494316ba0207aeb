//! Shells for the platform device handles.
//!
//! The OS audio API hands out opaque interface handles (a device, an
//! endpoint-volume interface, an enumerator).  The library never calls
//! into them — every OS call lives in the embedding application — but
//! it owns them: a cache entry keeps its handle alive together with the
//! plain values that were read from it.  These shells pair an opaque
//! handle, generic here, with those plain values, and their contracts
//! state exactly what is stored.

use vstd::prelude::*;

verus! {

/// Owns one opaque device handle.
pub struct IMMDeviceHandle<H> {
    imm_device: H,
}

impl<H> IMMDeviceHandle<H> {
    /// The handle held.
    pub closed spec fn device(self) -> H {
        self.imm_device
    }

    pub fn new(imm_device: H) -> (r: Self)
        ensures
            r.device() == imm_device,
    {
        IMMDeviceHandle { imm_device }
    }

    /// Gives the handle back, for the platform call that needs it.
    pub fn into_inner(self) -> (r: H)
        ensures
            r == self.device(),
    {
        self.imm_device
    }
}

/// Pairs an opaque endpoint-volume handle with the display name that
/// was read for its device, so that error reports can name the device.
pub struct AudioDeviceVolume<V> {
    volume_interface: V,
    device_name: String,
}

impl<V> AudioDeviceVolume<V> {
    /// The volume handle held.
    pub closed spec fn interface(self) -> V {
        self.volume_interface
    }

    /// The stored display name.
    pub closed spec fn name(self) -> Seq<char> {
        self.device_name@
    }

    pub fn from(volume_interface: V, device_name: String) -> (r: Result<Self, String>)
        ensures
            r is Ok,
            r->Ok_0.interface() == volume_interface,
            r->Ok_0.name() == device_name@,
    {
        Ok(AudioDeviceVolume { volume_interface, device_name })
    }
}

/// The same pairing, under the alternative backend's name.
pub struct WinAudioDeviceVolume<V> {
    volume_interface: V,
    device_name: String,
}

impl<V> WinAudioDeviceVolume<V> {
    /// The volume handle held.
    pub closed spec fn interface(self) -> V {
        self.volume_interface
    }

    /// The stored display name.
    pub closed spec fn name(self) -> Seq<char> {
        self.device_name@
    }

    pub fn new(volume_interface: V, device_name: String) -> (r: Result<Self, String>)
        ensures
            r is Ok,
            r->Ok_0.interface() == volume_interface,
            r->Ok_0.name() == device_name@,
    {
        Ok(WinAudioDeviceVolume { volume_interface, device_name })
    }
}

/// A materialized batch of devices, as one enumeration call produced
/// them.
pub struct AudioDeviceCollection<D> {
    devices: Vec<D>,
}

impl<D> AudioDeviceCollection<D> {
    /// The devices held, in enumeration order.
    pub closed spec fn model(self) -> Seq<D> {
        self.devices@
    }

    pub fn new(devices: Vec<D>) -> (r: Self)
        ensures
            r.model() == devices@,
    {
        AudioDeviceCollection { devices }
    }

    /// Yields the devices one by one, in order.
    pub fn iter(self) -> (r: WasapiAudioDeviceCollectionIntoIter<D>)
        ensures
            r.remaining() == self.model(),
    {
        WasapiAudioDeviceCollectionIntoIter { collection: self.devices }
    }
}

/// Walks a device batch front to back, handing each device out once.
pub struct WasapiAudioDeviceCollectionIntoIter<D> {
    collection: Vec<D>,
}

impl<D> WasapiAudioDeviceCollectionIntoIter<D> {
    /// The devices not yet handed out.
    pub closed spec fn remaining(self) -> Seq<D> {
        self.collection@
    }

    /// The next device, or nothing once the batch is exhausted.
    pub fn next(&mut self) -> (r: Option<D>)
        ensures
            old(self).remaining().len() == 0 ==> r is None && final(self).remaining() == old(self).remaining(),
            old(self).remaining().len() > 0 ==> r == Some(old(self).remaining()[0])
                && final(self).remaining() == old(self).remaining().skip(1),
    {
        if self.collection.len() > 0 {
            Some(self.collection.remove(0))
        } else {
            None
        }
    }
}

/// Owns the opaque OS device-enumerator handle for the primary
/// backend.  The enumeration calls themselves are platform code and
/// live in the embedding application.
pub struct WasapiAudioDeviceEnumerator<E> {
    pub mm_device_enumerator: E,
}

/// Owns the opaque OS device-enumerator handle for the alternative
/// backend.
pub struct WinAudioDeviceEnumerator<E> {
    pub imm_device_enumerator: E,
}

/// Pairs an opaque device handle with its endpoint-volume handle.
pub struct WasapiAudioDevice<H, V> {
    pub mm_device: H,
    pub volume_interface: V,
}

} // verus!
