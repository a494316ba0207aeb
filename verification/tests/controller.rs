use std::cell::RefCell;
use std::rc::Rc;

use volume_limiter::audio::{AudioDevice, AudioDeviceConfig, AudioDeviceEnumerator, AudioError};
use volume_limiter::controller::AudioController;

/// One simulated render endpoint; the volume cell is shared with the
/// test so that enforcement effects stay observable after the device
/// moves into the controller's cache.
#[derive(Clone)]
struct MockDevice {
    id: String,
    name: String,
    volume: Rc<std::cell::Cell<u32>>,
    fail_get: bool,
    fail_set: bool,
}

impl MockDevice {
    fn new(id: &str, name: &str, volume: u32) -> (MockDevice, Rc<std::cell::Cell<u32>>) {
        let cell = Rc::new(std::cell::Cell::new(volume));
        (
            MockDevice {
                id: id.to_string(),
                name: name.to_string(),
                volume: cell.clone(),
                fail_get: false,
                fail_set: false,
            },
            cell,
        )
    }
}

impl AudioDevice for MockDevice {
    // the ghost models of the trait; never called at run time
    fn volume(&self) -> vstd::prelude::int {
        unreachable!()
    }

    fn id(&self) -> vstd::prelude::Seq<char> {
        unreachable!()
    }

    fn name(&self) -> vstd::prelude::Seq<char> {
        unreachable!()
    }

    fn get_id(&self) -> Result<String, String> {
        Ok(self.id.clone())
    }

    fn get_name(&self) -> Result<String, String> {
        Ok(self.name.clone())
    }

    fn get_volume(&self) -> Result<u32, String> {
        if self.fail_get {
            Err("query failed".to_string())
        } else {
            Ok(self.volume.get())
        }
    }

    fn set_volume(&mut self, volume: u32) -> Result<(), String> {
        if self.fail_set {
            Err("set failed".to_string())
        } else {
            self.volume.set(volume);
            Ok(())
        }
    }
}

/// Hands out one prepared batch of devices per enumeration call; the
/// last batch repeats once the queue is empty.
struct MockEnumerator {
    batches: RefCell<Vec<Vec<MockDevice>>>,
    fail: bool,
}

impl MockEnumerator {
    fn of(batches: Vec<Vec<MockDevice>>) -> MockEnumerator {
        MockEnumerator { batches: RefCell::new(batches), fail: false }
    }
}

impl AudioDeviceEnumerator<MockDevice> for MockEnumerator {
    fn init() -> Result<Self, String> {
        Ok(MockEnumerator { batches: RefCell::new(Vec::new()), fail: false })
    }

    fn get_devices(&self) -> Result<Vec<MockDevice>, String> {
        if self.fail {
            return Err("enumeration failed".to_string());
        }
        let mut batches = self.batches.borrow_mut();
        if batches.len() > 1 {
            Ok(batches.remove(0))
        } else if batches.len() == 1 {
            Ok(batches[0].clone())
        } else {
            Ok(Vec::new())
        }
    }
}

fn config(global: u32, overrides: &[(&str, u32)]) -> AudioDeviceConfig {
    AudioDeviceConfig {
        global_max_volume: global,
        device_max_volumes: overrides.iter().map(|(k, v)| (k.to_string(), *v)).collect(),
    }
}

#[test]
fn enforcement_lowers_volume_above_global_limit() {
    // global 0.5, device A at 0.8: enforcement sets it to exactly 0.5
    let (dev, cell) = MockDevice::new("A", "Speakers", 800_000);
    let e = MockEnumerator::of(vec![vec![dev]]);
    let mut c = AudioController::with_enumerator(e, config(500_000, &[]));
    assert_eq!(c.update_devices(), Ok(true));
    assert_eq!(c.apply_max_volume("A"), Ok(()));
    assert_eq!(cell.get(), 500_000);
}

#[test]
fn enforcement_leaves_volume_below_override() {
    // override 0.3 under global 0.5; volume 0.2 stays untouched
    let (dev, cell) = MockDevice::new("B", "Headphones", 200_000);
    let e = MockEnumerator::of(vec![vec![dev]]);
    let mut c = AudioController::with_enumerator(e, config(500_000, &[("B", 300_000)]));
    assert_eq!(c.update_devices(), Ok(true));
    assert_eq!(c.apply_max_volume("B"), Ok(()));
    assert_eq!(cell.get(), 200_000);
}

#[test]
fn enforcement_is_idempotent_and_never_raises() {
    let (dev, cell) = MockDevice::new("A", "Speakers", 100_000);
    let e = MockEnumerator::of(vec![vec![dev]]);
    let mut c = AudioController::with_enumerator(e, config(500_000, &[]));
    c.update_devices().unwrap();
    assert_eq!(c.apply_max_volume("A"), Ok(()));
    assert_eq!(cell.get(), 100_000);
    assert_eq!(c.apply_max_volume("A"), Ok(()));
    assert_eq!(cell.get(), 100_000);
}

#[test]
fn removed_device_reports_not_found_and_later_ticks_proceed() {
    // C is listed, then removed before enforcement runs
    let (c1, _) = MockDevice::new("C", "Monitor", 900_000);
    let (d1, d1_cell) = MockDevice::new("D", "Speakers", 900_000);
    let e = MockEnumerator::of(vec![vec![c1], vec![d1]]);
    let mut ctrl = AudioController::with_enumerator(e, config(500_000, &[]));
    assert_eq!(ctrl.update_devices(), Ok(true));
    assert_eq!(ctrl.get_devices().len(), 1);
    // hot-plug: the next refresh replaces C with D
    assert_eq!(ctrl.update_devices(), Ok(true));
    assert_eq!(ctrl.apply_max_volume("C"), Err(AudioError::NotFound));
    // the next tick still enforces on the remaining device
    assert_eq!(ctrl.apply_max_volume("D"), Ok(()));
    assert_eq!(d1_cell.get(), 500_000);
}

#[test]
fn update_devices_ignores_order_but_sees_membership() {
    let (a1, _) = MockDevice::new("A", "Speakers", 0);
    let (b1, _) = MockDevice::new("B", "Headphones", 0);
    let (a2, _) = MockDevice::new("A", "Speakers", 0);
    let (b2, _) = MockDevice::new("B", "Headphones", 0);
    let (a3, _) = MockDevice::new("A", "Speakers", 0);
    let e = MockEnumerator::of(vec![
        vec![a1, b1],
        vec![b2, a2],  // same id set, different order
        vec![a3],      // B removed
        vec![],        // A removed
    ]);
    let mut c = AudioController::with_enumerator(e, config(1_000_000, &[]));
    assert_eq!(c.update_devices(), Ok(true));
    assert_eq!(c.update_devices(), Ok(false));
    assert_eq!(c.update_devices(), Ok(true));
    assert_eq!(c.update_devices(), Ok(true));
    assert_eq!(c.update_devices(), Ok(false));
}

#[test]
fn setters_reject_out_of_range_and_leave_state_unmodified() {
    let (dev, cell) = MockDevice::new("A", "Speakers", 800_000);
    let e = MockEnumerator::of(vec![vec![dev]]);
    let mut c = AudioController::with_enumerator(e, config(900_000, &[("A", 850_000)]));
    c.update_devices().unwrap();
    assert_eq!(c.set_global_max_volume(1_000_001), Err(AudioError::Validation));
    assert_eq!(c.set_device_max_volume("A", 2_000_000), Err(AudioError::Validation));
    assert_eq!(c.get_global_max_volume(), 900_000);
    assert_eq!(cell.get(), 800_000);
    let infos = c.get_devices();
    assert_eq!(infos.len(), 1);
    assert_eq!(infos[0].max_volume, 850_000);
    // full volume itself is still a valid ceiling
    assert_eq!(c.set_global_max_volume(1_000_000), Ok(()));
    assert_eq!(c.get_global_max_volume(), 1_000_000);
}

#[test]
fn set_device_max_volume_stores_override_and_reconciles() {
    let (dev, cell) = MockDevice::new("A", "Speakers", 800_000);
    let e = MockEnumerator::of(vec![vec![dev]]);
    let mut c = AudioController::with_enumerator(e, config(1_000_000, &[]));
    c.update_devices().unwrap();
    assert_eq!(c.set_device_max_volume("A", 250_000), Ok(()));
    assert_eq!(cell.get(), 250_000);
    let cfg = c.to_config();
    assert_eq!(cfg.device_max_volumes, vec![("A".to_string(), 250_000)]);
}

#[test]
fn set_device_max_volume_for_unknown_id_keeps_override() {
    let e = MockEnumerator::of(vec![]);
    let mut c = AudioController::with_enumerator(e, config(1_000_000, &[]));
    c.update_devices().unwrap();
    assert_eq!(c.set_device_max_volume("ghost", 250_000), Err(AudioError::NotFound));
    let cfg = c.to_config();
    assert_eq!(cfg.device_max_volumes, vec![("ghost".to_string(), 250_000)]);
}

#[test]
fn set_global_max_volume_reconciles_every_device_despite_failures() {
    let (mut bad, bad_cell) = MockDevice::new("A", "Speakers", 900_000);
    bad.fail_set = true;
    let (good, good_cell) = MockDevice::new("B", "Headphones", 900_000);
    let e = MockEnumerator::of(vec![vec![bad, good]]);
    let mut c = AudioController::with_enumerator(e, config(1_000_000, &[]));
    c.update_devices().unwrap();
    let r = c.set_global_max_volume(400_000);
    assert_eq!(r, Err(AudioError::Query("set failed".to_string())));
    // the failing device kept its volume, the other was still lowered
    assert_eq!(bad_cell.get(), 900_000);
    assert_eq!(good_cell.get(), 400_000);
    assert_eq!(c.get_global_max_volume(), 400_000);
}

#[test]
fn query_failure_reports_message_and_changes_nothing() {
    let (mut dev, cell) = MockDevice::new("A", "Speakers", 900_000);
    dev.fail_get = true;
    let e = MockEnumerator::of(vec![vec![dev]]);
    let mut c = AudioController::with_enumerator(e, config(500_000, &[]));
    c.update_devices().unwrap();
    assert_eq!(c.apply_max_volume("A"), Err(AudioError::Query("query failed".to_string())));
    assert_eq!(cell.get(), 900_000);
}

#[test]
fn get_devices_reports_effective_limits_sorted_by_name_then_id() {
    let (a, _) = MockDevice::new("id3", "Zeta", 0);
    let (b, _) = MockDevice::new("id2", "Alpha", 0);
    let (c_dev, _) = MockDevice::new("id1", "Alpha", 0);
    let e = MockEnumerator::of(vec![vec![a, b, c_dev]]);
    let mut c = AudioController::with_enumerator(e, config(500_000, &[("id2", 300_000)]));
    c.update_devices().unwrap();
    let infos = c.get_devices();
    let listed: Vec<(&str, &str, u32)> = infos
        .iter()
        .map(|i| (i.name.as_str(), i.id.as_str(), i.max_volume))
        .collect();
    assert_eq!(
        listed,
        vec![
            ("Alpha", "id1", 500_000),
            ("Alpha", "id2", 300_000),
            ("Zeta", "id3", 500_000),
        ]
    );
}

#[test]
fn effective_limit_is_capped_by_global_even_with_higher_override() {
    let (dev, _) = MockDevice::new("A", "Speakers", 0);
    let e = MockEnumerator::of(vec![vec![dev]]);
    let mut c = AudioController::with_enumerator(e, config(400_000, &[("A", 900_000)]));
    c.update_devices().unwrap();
    let infos = c.get_devices();
    assert_eq!(infos[0].max_volume, 400_000);
}

#[test]
fn enumeration_failure_keeps_cache_and_reports_error() {
    let (dev, _) = MockDevice::new("A", "Speakers", 0);
    let mut e = MockEnumerator::of(vec![vec![dev]]);
    e.fail = true;
    let mut c = AudioController::with_enumerator(e, config(1_000_000, &[]));
    match c.update_devices() {
        Err(AudioError::Enumeration(msg)) => assert_eq!(msg, "enumeration failed"),
        other => panic!("expected an enumeration error, got {:?}", other),
    }
    assert_eq!(c.get_devices().len(), 0);
}

#[test]
fn init_starts_with_an_empty_cache() {
    let c: AudioController<MockDevice, MockEnumerator> =
        AudioController::init(config(700_000, &[])).unwrap();
    assert_eq!(c.get_devices().len(), 0);
    assert_eq!(c.get_global_max_volume(), 700_000);
}

#[test]
fn refresh_cache_with_replaces_the_cache_wholesale() {
    let e = MockEnumerator::of(vec![]);
    let mut c = AudioController::with_enumerator(e, config(1_000_000, &[]));
    let (a, _) = MockDevice::new("A", "Speakers", 0);
    let (b, _) = MockDevice::new("B", "Headphones", 0);
    assert!(c.refresh_cache_with(vec![a.clone(), b.clone()]));
    assert_eq!(c.get_devices().len(), 2);
    // the same id set in another order is no change
    assert!(!c.refresh_cache_with(vec![b, a]));
    // dropping one id is a change, and only the new batch stays cached
    let (a2, _) = MockDevice::new("A", "Speakers", 0);
    assert!(c.refresh_cache_with(vec![a2]));
    let infos = c.get_devices();
    assert_eq!(infos.len(), 1);
    assert_eq!(infos[0].id, "A");
}

#[test]
fn refresh_cache_with_treats_a_rename_as_no_change_but_stores_it() {
    let e = MockEnumerator::of(vec![]);
    let mut c = AudioController::with_enumerator(e, config(1_000_000, &[]));
    let (before, _) = MockDevice::new("A", "Old name", 0);
    assert!(c.refresh_cache_with(vec![before]));
    let (after, _) = MockDevice::new("A", "New name", 0);
    assert!(!c.refresh_cache_with(vec![after]));
    let infos = c.get_devices();
    assert_eq!(infos.len(), 1);
    assert_eq!(infos[0].name, "New name");
}

#[test]
fn duplicate_ids_in_one_enumeration_keep_one_entry() {
    let (first, _) = MockDevice::new("A", "First", 0);
    let (second, _) = MockDevice::new("A", "Second", 0);
    let e = MockEnumerator::of(vec![vec![first, second]]);
    let mut c = AudioController::with_enumerator(e, config(1_000_000, &[]));
    assert_eq!(c.update_devices(), Ok(true));
    let infos = c.get_devices();
    assert_eq!(infos.len(), 1);
    assert_eq!(infos[0].name, "Second");
}
