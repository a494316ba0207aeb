//! The audio controller: cache refresh, limit storage, and enforcement.

use vstd::prelude::*;

use crate::audio::{
    has_limit, limits_wf, vol_lookup, AudioDevice, AudioDeviceConfig, AudioDeviceEnumerator,
    AudioDeviceInfo, AudioError,
};
use crate::audio::{
    lemma_vol_lookup_absent, lemma_vol_lookup_found, lemma_vol_lookup_push,
    lemma_vol_lookup_some, lemma_vol_lookup_update_other,
};
use crate::order::{info_model, infos_sorted, sort_infos};
use crate::volume::{clamped, min_volume, spec_min_volume, valid_volume, VOLUME_SCALE};

verus! {

/// One cache entry: the id and name read at the last refresh, and the
/// live capability handle that the entry exclusively owns.
struct CachedDevice<D: AudioDevice> {
    id: String,
    name: String,
    device: D,
}

/// The entries of a cache: `(stored id, stored name, owned device)`.
spec fn cache_entries_of<D: AudioDevice>(c: Seq<CachedDevice<D>>) -> Seq<(Seq<char>, Seq<char>, D)> {
    c.map_values(|e: CachedDevice<D>| (e.id@, e.name@, e.device))
}

/// Whether `ids` and `names` can be what a refresh read from the batch
/// `devices`: position by position the device's own id and name, or
/// empty where that query failed.
pub open spec fn batch_reads<D: AudioDevice>(
    devices: Seq<D>,
    ids: Seq<Seq<char>>,
    names: Seq<Seq<char>>,
) -> bool {
    &&& ids.len() == devices.len()
    &&& names.len() == devices.len()
    &&& forall|k: int|
        0 <= k < devices.len() ==> (#[trigger] ids[k]) == devices[k].id() || ids[k]
            == Seq::<char>::empty()
    &&& forall|k: int|
        0 <= k < devices.len() ==> (#[trigger] names[k]) == devices[k].name() || names[k]
            == Seq::<char>::empty()
}

/// The first entry carrying the stored id `id`, or `-1`.
pub open spec fn cache_find<D>(c: Seq<(Seq<char>, Seq<char>, D)>, id: Seq<char>) -> int
    decreases c.len(),
{
    if c.len() == 0 {
        -1
    } else if c[0].0 == id {
        0
    } else if cache_find(c.skip(1), id) < 0 {
        -1
    } else {
        cache_find(c.skip(1), id) + 1
    }
}

/// What a refresh builds from a batch and the ids and names read from
/// it, starting from `acc`: one entry per device in batch order, where
/// a later duplicate id replaces the earlier entry.
pub open spec fn rebuild_model<D>(
    acc: Seq<(Seq<char>, Seq<char>, D)>,
    devices: Seq<D>,
    ids: Seq<Seq<char>>,
    names: Seq<Seq<char>>,
) -> Seq<(Seq<char>, Seq<char>, D)>
    decreases devices.len(),
{
    if devices.len() == 0 {
        acc
    } else {
        let entry = (ids[0], names[0], devices[0]);
        let f = cache_find(acc, ids[0]);
        let acc2 = if f >= 0 {
            acc.update(f, entry)
        } else {
            acc.push(entry)
        };
        rebuild_model(acc2, devices.skip(1), ids.skip(1), names.skip(1))
    }
}

/// Every entry stores its own device's id and name, or the empty
/// fallback for a failed query.
pub open spec fn cache_coherent<D: AudioDevice>(c: Seq<(Seq<char>, Seq<char>, D)>) -> bool {
    forall|k: int|
        0 <= k < c.len() ==> (((#[trigger] c[k]).0 == c[k].2.id() || c[k].0
            == Seq::<char>::empty()) && (c[k].1 == c[k].2.name() || c[k].1
            == Seq::<char>::empty()))
}

/// The stored ids of a run of entries, in order.
pub open spec fn entry_ids<D>(c: Seq<(Seq<char>, Seq<char>, D)>) -> Seq<Seq<char>> {
    c.map_values(|t: (Seq<char>, Seq<char>, D)| t.0)
}

/// What [`cache_find`] returning an index or `-1` means.
proof fn lemma_cache_find_props<D>(c: Seq<(Seq<char>, Seq<char>, D)>, id: Seq<char>)
    ensures
        cache_find(c, id) < 0 ==> cache_find(c, id) == -1 && forall|k: int|
            0 <= k < c.len() ==> (#[trigger] c[k]).0 != id,
        cache_find(c, id) >= 0 ==> 0 <= cache_find(c, id) < c.len() && c[cache_find(c, id)].0
            == id && forall|k: int| 0 <= k < cache_find(c, id) ==> (#[trigger] c[k]).0 != id,
    decreases c.len(),
{
    if c.len() > 0 && c[0].0 != id {
        lemma_cache_find_props(c.skip(1), id);
        let fr = cache_find(c.skip(1), id);
        if fr < 0 {
            assert(cache_find(c, id) == -1);
            assert forall|k: int| 0 <= k < c.len() implies (#[trigger] c[k]).0 != id by {
                if k > 0 {
                    assert(c.skip(1)[k - 1] == c[k]);
                }
            }
        } else {
            assert(cache_find(c, id) == fr + 1);
            assert(c.skip(1)[fr] == c[fr + 1]);
            assert forall|k: int| 0 <= k < fr + 1 implies (#[trigger] c[k]).0 != id by {
                if k > 0 {
                    assert(c.skip(1)[k - 1] == c[k]);
                }
            }
        }
    }
}

/// Processing one more batch element performs one find-and-replace (or
/// append) step on the rebuilt entries.
proof fn lemma_rebuild_snoc<D>(
    acc: Seq<(Seq<char>, Seq<char>, D)>,
    devices: Seq<D>,
    ids: Seq<Seq<char>>,
    names: Seq<Seq<char>>,
    d: D,
    x: Seq<char>,
    y: Seq<char>,
)
    requires
        ids.len() == devices.len(),
        names.len() == devices.len(),
    ensures
        rebuild_model(acc, devices.push(d), ids.push(x), names.push(y)) == ({
            let c = rebuild_model(acc, devices, ids, names);
            let f = cache_find(c, x);
            if f >= 0 {
                c.update(f, (x, y, d))
            } else {
                c.push((x, y, d))
            }
        }),
    decreases devices.len(),
{
    if devices.len() == 0 {
        assert((devices.push(d))[0] == d);
        assert((ids.push(x))[0] == x);
        assert((names.push(y))[0] == y);
        assert(devices.push(d).skip(1) =~= Seq::<D>::empty());
        assert(ids.push(x).skip(1) =~= Seq::<Seq<char>>::empty());
        assert(names.push(y).skip(1) =~= Seq::<Seq<char>>::empty());
        let entry = (x, y, d);
        let f = cache_find(acc, x);
        let acc2 = if f >= 0 {
            acc.update(f, entry)
        } else {
            acc.push(entry)
        };
        assert(rebuild_model(acc, devices, ids, names) == acc);
        assert(rebuild_model(acc, devices.push(d), ids.push(x), names.push(y)) == rebuild_model(
            acc2,
            devices.push(d).skip(1),
            ids.push(x).skip(1),
            names.push(y).skip(1),
        ));
        assert(rebuild_model(
            acc2,
            devices.push(d).skip(1),
            ids.push(x).skip(1),
            names.push(y).skip(1),
        ) == acc2);
    } else {
        assert((devices.push(d))[0] == devices[0]);
        assert((ids.push(x))[0] == ids[0]);
        assert((names.push(y))[0] == names[0]);
        assert(devices.push(d).skip(1) =~= devices.skip(1).push(d));
        assert(ids.push(x).skip(1) =~= ids.skip(1).push(x));
        assert(names.push(y).skip(1) =~= names.skip(1).push(y));
        let entry = (ids[0], names[0], devices[0]);
        let f = cache_find(acc, ids[0]);
        let acc2 = if f >= 0 {
            acc.update(f, entry)
        } else {
            acc.push(entry)
        };
        lemma_rebuild_snoc(acc2, devices.skip(1), ids.skip(1), names.skip(1), d, x, y);
        assert(rebuild_model(acc, devices.push(d), ids.push(x), names.push(y)) == rebuild_model(
            acc2,
            devices.skip(1).push(d),
            ids.skip(1).push(x),
            names.skip(1).push(y),
        ));
        assert(rebuild_model(acc, devices, ids, names) == rebuild_model(
            acc2,
            devices.skip(1),
            ids.skip(1),
            names.skip(1),
        ));
    }
}

/// A rebuild from coherent starting entries and honest reads yields
/// coherent entries.
proof fn lemma_rebuild_coherent<D: AudioDevice>(
    acc: Seq<(Seq<char>, Seq<char>, D)>,
    devices: Seq<D>,
    ids: Seq<Seq<char>>,
    names: Seq<Seq<char>>,
)
    requires
        cache_coherent(acc),
        batch_reads(devices, ids, names),
    ensures
        cache_coherent(rebuild_model(acc, devices, ids, names)),
    decreases devices.len(),
{
    if devices.len() > 0 {
        let entry = (ids[0], names[0], devices[0]);
        assert(ids[0] == devices[0].id() || ids[0] == Seq::<char>::empty());
        assert(names[0] == devices[0].name() || names[0] == Seq::<char>::empty());
        let f = cache_find(acc, ids[0]);
        lemma_cache_find_props(acc, ids[0]);
        let acc2 = if f >= 0 {
            acc.update(f, entry)
        } else {
            acc.push(entry)
        };
        assert(cache_coherent(acc2)) by {
            assert forall|k: int| 0 <= k < acc2.len() implies (((#[trigger] acc2[k]).0
                == acc2[k].2.id() || acc2[k].0 == Seq::<char>::empty()) && (acc2[k].1
                == acc2[k].2.name() || acc2[k].1 == Seq::<char>::empty())) by {
                if !(f >= 0 && k == f) && k < acc.len() {
                    assert(acc2[k] == acc[k]);
                }
            }
        }
        assert(batch_reads(devices.skip(1), ids.skip(1), names.skip(1))) by {
            assert(forall|k: int|
                0 <= k < devices.skip(1).len() ==> (#[trigger] ids.skip(1)[k]) == ids[k + 1]);
            assert(forall|k: int|
                0 <= k < devices.skip(1).len() ==> (#[trigger] names.skip(1)[k]) == names[k
                    + 1]);
            assert(forall|k: int|
                0 <= k < devices.skip(1).len() ==> (#[trigger] devices.skip(1)[k]) == devices[k
                    + 1]);
        }
        lemma_rebuild_coherent(acc2, devices.skip(1), ids.skip(1), names.skip(1));
    }
}

/// The head of a sequence and the set of its tail make up its set.
proof fn lemma_to_set_head<A>(s: Seq<A>)
    requires
        s.len() > 0,
    ensures
        s.to_set() =~= s.skip(1).to_set().insert(s[0]),
{
    assert forall|y: A| s.to_set().contains(y) implies s.skip(1).to_set().insert(s[0]).contains(
        y,
    ) by {
        let k = choose|k: int| 0 <= k < s.len() && s[k] == y;
        if k > 0 {
            assert(s.skip(1)[k - 1] == y);
            assert(s.skip(1).contains(y));
        }
    }
    assert forall|y: A| s.skip(1).to_set().insert(s[0]).contains(y) implies s.to_set().contains(
        y,
    ) by {
        if y == s[0] {
            assert(s[0] == y);
            assert(s.contains(y));
        } else {
            let k = choose|k: int| 0 <= k < s.skip(1).len() && s.skip(1)[k] == y;
            assert(s[k + 1] == y);
            assert(s.contains(y));
        }
    }
}

/// Law: the stored ids of a rebuild are exactly the starting ids
/// together with the ids read from the batch — the batch's order never
/// enters the id set.
pub proof fn lemma_rebuild_id_set<D>(
    acc: Seq<(Seq<char>, Seq<char>, D)>,
    devices: Seq<D>,
    ids: Seq<Seq<char>>,
    names: Seq<Seq<char>>,
)
    requires
        ids.len() == devices.len(),
        names.len() == devices.len(),
    ensures
        entry_ids(rebuild_model(acc, devices, ids, names)).to_set() == entry_ids(acc)
            .to_set().union(ids.to_set()),
    decreases devices.len(),
{
    if devices.len() == 0 {
        assert(ids.to_set() =~= Set::<Seq<char>>::empty());
        assert(entry_ids(acc).to_set().union(ids.to_set()) =~= entry_ids(acc).to_set());
    } else {
        let entry = (ids[0], names[0], devices[0]);
        let f = cache_find(acc, ids[0]);
        lemma_cache_find_props(acc, ids[0]);
        let acc2 = if f >= 0 {
            acc.update(f, entry)
        } else {
            acc.push(entry)
        };
        lemma_to_set_head(ids);
        if f >= 0 {
            assert(entry_ids(acc2) =~= entry_ids(acc));
            assert(entry_ids(acc)[f] == ids[0]);
            assert(entry_ids(acc).contains(ids[0]));
        } else {
            assert(entry_ids(acc2) =~= entry_ids(acc).push(ids[0]));
            entry_ids(acc).lemma_push_to_set_commute(ids[0]);
            assert(entry_ids(acc2).to_set() =~= entry_ids(acc).to_set().insert(ids[0]));
        }
        lemma_rebuild_id_set(acc2, devices.skip(1), ids.skip(1), names.skip(1));
        assert(entry_ids(rebuild_model(acc, devices, ids, names)).to_set() =~= entry_ids(acc)
            .to_set().union(ids.to_set()));
    }
}

/// Orchestrates enumeration refresh, limit storage, and enforcement.
///
/// The cache is owned exclusively by the controller and replaced
/// wholesale on every refresh; per-device overrides and the global
/// ceiling are mutated only by the explicit setters.
pub struct AudioController<D: AudioDevice, E: AudioDeviceEnumerator<D>> {
    device_enumerator: E,
    device_cache: Vec<CachedDevice<D>>,
    global_max_volume: u32,
    device_max_volumes: Vec<(String, u32)>,
}

/// Finds the cache entry carrying `id`, if any.
fn find_entry<D: AudioDevice>(cache: &Vec<CachedDevice<D>>, id: &String) -> (r: Option<usize>)
    ensures
        r is Some ==> r->Some_0 < cache@.len() && cache@[r->Some_0 as int].id@ == id@ && forall|
            j: int,
        | 0 <= j < r->Some_0 ==> (#[trigger] cache@[j].id@) != id@,
        r is None ==> forall|i: int| 0 <= i < cache@.len() ==> (#[trigger] cache@[i].id@) != id@,
{
    let mut i: usize = 0;
    while i < cache.len()
        invariant
            i <= cache@.len(),
            forall|j: int| 0 <= j < i ==> (#[trigger] cache@[j].id@) != id@,
        decreases cache@.len() - i,
    {
        if cache[i].id == *id {
            return Some(i);
        }
        i += 1;
    }
    None
}

/// Finds the override table entry carrying `id`, if any; the index of
/// the first such pair.
fn find_limit(limits: &Vec<(String, u32)>, id: &String) -> (r: Option<usize>)
    ensures
        r is Some ==> {
            &&& r->Some_0 < limits@.len()
            &&& limits@[r->Some_0 as int].0@ == id@
            &&& forall|j: int| 0 <= j < r->Some_0 ==> (#[trigger] limits@[j].0@) != id@
        },
        r is None ==> forall|i: int| 0 <= i < limits@.len() ==> (#[trigger] limits@[i].0@) != id@,
{
    let mut i: usize = 0;
    while i < limits.len()
        invariant
            i <= limits@.len(),
            forall|j: int| 0 <= j < i ==> (#[trigger] limits@[j].0@) != id@,
        decreases limits@.len() - i,
    {
        if limits[i].0 == *id {
            return Some(i);
        }
        i += 1;
    }
    None
}

impl<D: AudioDevice, E: AudioDeviceEnumerator<D>> AudioController<D, E> {
    /// The cache entries: the id and name stored at the last refresh,
    /// and the device handle the entry owns.
    pub closed spec fn cache_entries(self) -> Seq<(Seq<char>, Seq<char>, D)> {
        cache_entries_of(self.device_cache@)
    }

    /// The model of the cache: one `(id, name, volume)` triple per entry.
    pub open spec fn devices(self) -> Seq<(Seq<char>, Seq<char>, int)> {
        self.cache_entries().map_values(
            |t: (Seq<char>, Seq<char>, D)| (t.0, t.1, t.2.volume()),
        )
    }

    /// The stored global ceiling.
    pub closed spec fn global_limit(self) -> u32 {
        self.global_max_volume
    }

    /// The stored override table.
    pub closed spec fn limits(self) -> Seq<(Seq<char>, u32)> {
        self.device_max_volumes@.map_values(|p: (String, u32)| (p.0@, p.1))
    }

    /// The ids of the cached devices, in cache order.
    pub open spec fn device_ids(self) -> Seq<Seq<char>> {
        self.devices().map_values(|d: (Seq<char>, Seq<char>, int)| d.0)
    }

    /// The set of cached device ids.
    pub open spec fn id_set(self) -> Set<Seq<char>> {
        self.device_ids().to_set()
    }

    /// Whether a device with the given id is currently cached.
    pub open spec fn cache_has(self, id: Seq<char>) -> bool {
        exists|i: int| 0 <= i < self.devices().len() && (#[trigger] self.devices()[i]).0 == id
    }

    /// The controller's invariant: the global ceiling and every override
    /// lie in `[0.0, 1.0]`, override keys are unique, and cached ids are
    /// unique.
    pub open spec fn wf(self) -> bool {
        &&& valid_volume(self.global_limit())
        &&& limits_wf(self.limits())
        &&& forall|i: int, j: int|
            0 <= i < j < self.devices().len() ==> self.devices()[i].0 != self.devices()[j].0
    }

    /// The effective ceiling for a device: its override where one is
    /// stored (`1.0` otherwise), capped by the global ceiling.
    pub open spec fn effective_limit(self, id: Seq<char>) -> u32 {
        spec_min_volume(
            match vol_lookup(self.limits(), id) {
                Some(v) => v,
                None => VOLUME_SCALE,
            },
            self.global_limit(),
        )
    }

    /// Builds a controller around an already constructed enumerator,
    /// with an empty cache and the limits taken from `config`.
    pub fn with_enumerator(enumerator: E, config: AudioDeviceConfig) -> (r: Self)
        requires
            config.wf(),
        ensures
            r.wf(),
            r.global_limit() == config.global_max_volume,
            r.limits() == config.limits(),
            r.devices() == Seq::<(Seq<char>, Seq<char>, int)>::empty(),
    {
        let r = AudioController {
            device_enumerator: enumerator,
            device_cache: Vec::new(),
            global_max_volume: config.global_max_volume,
            device_max_volumes: config.device_max_volumes,
        };
        proof {
            assert(r.devices() =~= Seq::<(Seq<char>, Seq<char>, int)>::empty());
        }
        r
    }

    /// Constructs the enumerator collaborator and starts with an empty
    /// cache; the first population is deferred to the first
    /// [`Self::update_devices`] call.  Fails only when the enumerator
    /// cannot be constructed.
    pub fn init(config: AudioDeviceConfig) -> (r: Result<Self, AudioError>)
        requires
            config.wf(),
        ensures
            r is Ok ==> {
                &&& r->Ok_0.wf()
                &&& r->Ok_0.global_limit() == config.global_max_volume
                &&& r->Ok_0.limits() == config.limits()
                &&& r->Ok_0.devices() == Seq::<(Seq<char>, Seq<char>, int)>::empty()
            },
            r is Err ==> r->Err_0 is Enumeration,
    {
        match E::init() {
            Ok(enumerator) => Ok(Self::with_enumerator(enumerator, config)),
            Err(msg) => Err(AudioError::Enumeration(msg)),
        }
    }

    /// The stored global ceiling.
    pub fn get_global_max_volume(&self) -> (r: u32)
        ensures
            r == self.global_limit(),
    {
        self.global_max_volume
    }

    /// A copy of the limits as a persistable record.
    pub fn to_config(&self) -> (r: AudioDeviceConfig)
        requires
            self.wf(),
        ensures
            r.wf(),
            r.global_max_volume == self.global_limit(),
            r.limits() == self.limits(),
    {
        let mut pairs: Vec<(String, u32)> = Vec::new();
        let mut i: usize = 0;
        while i < self.device_max_volumes.len()
            invariant
                i <= self.device_max_volumes@.len(),
                pairs@.len() == i,
                forall|k: int|
                    0 <= k < i ==> (#[trigger] pairs@[k]).0@ == self.device_max_volumes@[k].0@
                        && pairs@[k].1 == self.device_max_volumes@[k].1,
            decreases self.device_max_volumes@.len() - i,
        {
            let id = self.device_max_volumes[i].0.clone();
            let v = self.device_max_volumes[i].1;
            pairs.push((id, v));
            i += 1;
        }
        let r = AudioDeviceConfig {
            global_max_volume: self.global_max_volume,
            device_max_volumes: pairs,
        };
        proof {
            assert(r.limits() =~= self.limits());
        }
        r
    }

    /// The effective ceiling for `id`, as an executable value.
    fn effective_limit_of(&self, id: &String) -> (r: u32)
        requires
            self.wf(),
        ensures
            r == self.effective_limit(id@),
            valid_volume(r),
    {
        match find_limit(&self.device_max_volumes, id) {
            Some(i) => {
                proof {
                    lemma_vol_lookup_found(self.limits(), id@, i as int);
                }
                min_volume(self.device_max_volumes[i].1, self.global_max_volume)
            },
            None => {
                proof {
                    lemma_vol_lookup_absent(self.limits(), id@);
                }
                self.global_max_volume
            },
        }
    }

    /// Law: for every id, the effective limit is the override where one
    /// is stored (full volume otherwise) capped by the global ceiling,
    /// and never exceeds the global ceiling.
    pub proof fn lemma_effective_limit(self, id: Seq<char>)
        ensures
            self.effective_limit(id) == spec_min_volume(
                match vol_lookup(self.limits(), id) {
                    Some(v) => v,
                    None => VOLUME_SCALE,
                },
                self.global_limit(),
            ),
            self.effective_limit(id) <= self.global_limit(),
            !has_limit(self.limits(), id) && self.wf() ==> self.effective_limit(id)
                == self.global_limit(),
    {
        if !has_limit(self.limits(), id) {
            lemma_vol_lookup_some(self.limits(), id);
        }
    }

    /// A snapshot of the cache for the presentation layer, with each
    /// device's effective ceiling, sorted by name and then by id.
    pub fn get_devices(&self) -> (r: Vec<AudioDeviceInfo>)
        requires
            self.wf(),
        ensures
            r@.len() == self.devices().len(),
            infos_sorted(r@),
            r@.map_values(|x: AudioDeviceInfo| info_model(x)).to_multiset() == self.devices()
                .map_values(
                |d: (Seq<char>, Seq<char>, int)| (d.0, d.1, self.effective_limit(d.0)),
            ).to_multiset(),
            forall|k: int| 0 <= k < r@.len() ==> valid_volume((#[trigger] r@[k]).max_volume),
    {
        let mut infos: Vec<AudioDeviceInfo> = Vec::new();
        let mut i: usize = 0;
        while i < self.device_cache.len()
            invariant
                self.wf(),
                i <= self.device_cache@.len(),
                infos@.len() == i,
                forall|k: int|
                    0 <= k < i ==> info_model(#[trigger] infos@[k]) == (
                        self.devices()[k].0,
                        self.devices()[k].1,
                        self.effective_limit(self.devices()[k].0),
                    ),
                forall|k: int|
                    0 <= k < i ==> valid_volume((#[trigger] infos@[k]).max_volume),
            decreases self.device_cache@.len() - i,
        {
            let id = self.device_cache[i].id.clone();
            let name = self.device_cache[i].name.clone();
            let max_volume = self.effective_limit_of(&id);
            infos.push(AudioDeviceInfo { id, name, max_volume });
            i += 1;
        }
        proof {
            assert(infos@.map_values(|x: AudioDeviceInfo| info_model(x)) =~= self.devices()
                .map_values(
                |d: (Seq<char>, Seq<char>, int)| (d.0, d.1, self.effective_limit(d.0)),
            ));
        }
        sort_infos(infos)
    }

    /// The single enforcement primitive: looks up the cached device,
    /// reads its volume, and lowers it to the effective ceiling exactly
    /// when it exceeds it.  Never raises a volume.  Fails `NotFound`
    /// exactly when the id is not cached, and `Query` when the device's
    /// own calls fail; a failed call leaves the volume unchanged.
    pub fn apply_max_volume(&mut self, device_id: &str) -> (r: Result<(), AudioError>)
        requires
            old(self).wf(),
        ensures
            final(self).wf(),
            final(self).global_limit() == old(self).global_limit(),
            final(self).limits() == old(self).limits(),
            final(self).devices().len() == old(self).devices().len(),
            forall|i: int|
                0 <= i < old(self).devices().len() ==> (#[trigger] final(self).devices()[i]).0
                    == old(self).devices()[i].0 && final(self).devices()[i].1
                    == old(self).devices()[i].1,
            forall|i: int|
                0 <= i < old(self).devices().len() && old(self).devices()[i].0 != device_id@
                    ==> (#[trigger] final(self).devices()[i]).2 == old(self).devices()[i].2,
            forall|i: int|
                0 <= i < old(self).devices().len() && (#[trigger] old(self).devices()[i]).0
                    == device_id@ ==> final(self).devices()[i].2 <= old(self).devices()[i].2,
            r is Ok ==> forall|i: int|
                0 <= i < old(self).devices().len() && (#[trigger] old(self).devices()[i]).0
                    == device_id@ ==> final(self).devices()[i].2 == clamped(
                    old(self).devices()[i].2,
                    old(self).effective_limit(device_id@),
                ),
            r is Err ==> forall|i: int|
                0 <= i < old(self).devices().len() ==> (#[trigger] final(self).devices()[i]).2
                    == old(self).devices()[i].2,
            (r is Err && r->Err_0 is NotFound) <==> !old(self).cache_has(device_id@),
            r is Err ==> (r->Err_0 is NotFound || r->Err_0 is Query),
    {
        let key: String = device_id.to_owned();
        let idx = match find_entry(&self.device_cache, &key) {
            Some(i) => i,
            None => {
                proof {
                    assert forall|i: int| 0 <= i < self.devices().len() implies (
                    #[trigger] self.devices()[i]).0 != device_id@ by {
                        assert(self.devices()[i].0 == self.device_cache@[i].id@);
                    }
                }
                return Err(AudioError::NotFound);
            },
        };
        proof {
            assert(self.devices()[idx as int].0 == device_id@);
            assert(old(self).cache_has(device_id@));
        }
        let eff = self.effective_limit_of(&key);
        let ghost old_cache = self.device_cache@;
        let mut entry = self.device_cache.remove(idx);
        let res: Result<(), AudioError> = match entry.device.get_volume() {
            Err(msg) => Err(AudioError::Query(msg)),
            Ok(current) => {
                if current > eff {
                    match entry.device.set_volume(eff) {
                        Err(msg) => Err(AudioError::Query(msg)),
                        Ok(()) => Ok(()),
                    }
                } else {
                    Ok(())
                }
            },
        };
        self.device_cache.insert(idx, entry);
        proof {
            assert(self.device_cache@ =~= old_cache.update(idx as int, self.device_cache@[idx as int]));
            assert forall|i: int|
                0 <= i < old(self).devices().len() implies (#[trigger] self.devices()[i]).0 == old(
                self,
            ).devices()[i].0 && self.devices()[i].1 == old(self).devices()[i].1 by {
                if i != idx {
                    assert(self.device_cache@[i] == old_cache[i]);
                }
            }
            assert forall|i: int|
                0 <= i < old(self).devices().len() && i != idx implies (
            #[trigger] self.devices()[i]).2 == old(self).devices()[i].2 by {
                assert(self.device_cache@[i] == old_cache[i]);
            }
            // cached ids are unique, so only the entry at idx carries device_id
            assert forall|i: int|
                0 <= i < old(self).devices().len() && (#[trigger] old(self).devices()[i]).0
                    == device_id@ implies i == idx by {}
        }
        res
    }

    /// Stores (or replaces) the override for `device_id`, then
    /// reconciles that one device.  An out-of-range volume is rejected
    /// without mutating anything.  The override is stored even when the
    /// reconciliation afterwards fails.
    pub fn set_device_max_volume(&mut self, device_id: &str, max_volume: u32) -> (r: Result<
        (),
        AudioError,
    >)
        requires
            old(self).wf(),
        ensures
            final(self).wf(),
            !valid_volume(max_volume) ==> r == Err::<(), AudioError>(AudioError::Validation)
                && *final(self) == *old(self),
            valid_volume(max_volume) ==> {
                &&& final(self).global_limit() == old(self).global_limit()
                &&& vol_lookup(final(self).limits(), device_id@) == Some(max_volume)
                &&& forall|id: Seq<char>|
                    id != device_id@ ==> #[trigger] vol_lookup(final(self).limits(), id)
                        == vol_lookup(old(self).limits(), id)
                &&& final(self).devices().len() == old(self).devices().len()
                &&& forall|i: int|
                    0 <= i < old(self).devices().len() ==> (#[trigger] final(self).devices()[i]).0
                        == old(self).devices()[i].0 && final(self).devices()[i].1
                        == old(self).devices()[i].1
                &&& forall|i: int|
                    0 <= i < old(self).devices().len() && old(self).devices()[i].0 != device_id@
                        ==> (#[trigger] final(self).devices()[i]).2 == old(self).devices()[i].2
                &&& forall|i: int|
                    0 <= i < old(self).devices().len() && (#[trigger] old(self).devices()[i]).0
                        == device_id@ ==> final(self).devices()[i].2 <= old(self).devices()[i].2
                &&& (r is Ok ==> forall|i: int|
                    0 <= i < old(self).devices().len() && (#[trigger] old(self).devices()[i]).0
                        == device_id@ ==> final(self).devices()[i].2 == clamped(
                        old(self).devices()[i].2,
                        spec_min_volume(max_volume, old(self).global_limit()),
                    ))
                &&& ((r is Err && r->Err_0 is NotFound) <==> !old(self).cache_has(device_id@))
                &&& (r is Err ==> r->Err_0 is NotFound || r->Err_0 is Query)
            },
    {
        if max_volume > VOLUME_SCALE {
            return Err(AudioError::Validation);
        }
        let key: String = device_id.to_owned();
        let ghost old_limits = self.limits();
        match find_limit(&self.device_max_volumes, &key) {
            Some(i) => {
                let existing = self.device_max_volumes[i].0.clone();
                self.device_max_volumes.set(i, (existing, max_volume));
                proof {
                    assert(self.limits().len() == old_limits.len());
                    assert(self.limits()[i as int].0 == old_limits[i as int].0);
                    assert(self.limits()[i as int].1 == max_volume);
                    assert forall|k: int|
                        0 <= k < old_limits.len() && k != i implies old_limits[k] == (
                    #[trigger] self.limits()[k]) by {
                        assert(self.device_max_volumes@[k] == old(self).device_max_volumes@[k]);
                    }
                    assert(forall|j: int|
                        0 <= j < i ==> (#[trigger] self.limits()[j]).0 != device_id@);
                    lemma_vol_lookup_found(self.limits(), device_id@, i as int);
                    assert forall|id: Seq<char>| id != device_id@ implies #[trigger] vol_lookup(
                        self.limits(),
                        id,
                    ) == vol_lookup(old_limits, id) by {
                        lemma_vol_lookup_update_other(old_limits, self.limits(), i as int, id);
                    }
                }
            },
            None => {
                self.device_max_volumes.push((key, max_volume));
                proof {
                    assert(self.limits() =~= old_limits.push((device_id@, max_volume)));
                    assert(forall|k: int|
                        0 <= k < old_limits.len() ==> (#[trigger] old_limits[k]).0 != device_id@);
                    lemma_vol_lookup_absent(old_limits, device_id@);
                    lemma_vol_lookup_push(old_limits, (device_id@, max_volume), device_id@);
                    assert forall|id: Seq<char>| id != device_id@ implies #[trigger] vol_lookup(
                        self.limits(),
                        id,
                    ) == vol_lookup(old_limits, id) by {
                        lemma_vol_lookup_push(old_limits, (device_id@, max_volume), id);
                    }
                }
            },
        }
        self.apply_max_volume(device_id)
    }

    /// Reconciles every cached device against the current limits.  Every
    /// device gets its attempt even after one fails; the first error
    /// encountered (if any) is returned.
    pub fn apply_volume_limits(&mut self) -> (r: Result<(), AudioError>)
        requires
            old(self).wf(),
        ensures
            final(self).wf(),
            final(self).global_limit() == old(self).global_limit(),
            final(self).limits() == old(self).limits(),
            final(self).devices().len() == old(self).devices().len(),
            forall|i: int|
                0 <= i < old(self).devices().len() ==> (#[trigger] final(self).devices()[i]).0
                    == old(self).devices()[i].0 && final(self).devices()[i].1
                    == old(self).devices()[i].1,
            forall|i: int|
                0 <= i < old(self).devices().len() ==> (#[trigger] final(self).devices()[i]).2
                    <= old(self).devices()[i].2,
            forall|i: int|
                0 <= i < old(self).devices().len() ==> (#[trigger] final(self).devices()[i]).2
                    == old(self).devices()[i].2 || final(self).devices()[i].2 == clamped(
                    old(self).devices()[i].2,
                    old(self).effective_limit(old(self).devices()[i].0),
                ),
            r is Ok ==> forall|i: int|
                0 <= i < old(self).devices().len() ==> (#[trigger] final(self).devices()[i]).2
                    == clamped(
                    old(self).devices()[i].2,
                    old(self).effective_limit(old(self).devices()[i].0),
                ),
            r is Err ==> r->Err_0 is Query,
            old(self).devices().len() == 0 ==> r is Ok,
    {
        let mut ids: Vec<String> = Vec::new();
        let mut i: usize = 0;
        while i < self.device_cache.len()
            invariant
                i <= self.device_cache@.len(),
                ids@.len() == i,
                forall|k: int|
                    0 <= k < i ==> (#[trigger] ids@[k])@ == self.device_cache@[k].id@,
            decreases self.device_cache@.len() - i,
        {
            let id = self.device_cache[i].id.clone();
            ids.push(id);
            i += 1;
        }
        let mut res: Result<(), AudioError> = Ok(());
        let mut j: usize = 0;
        while j < ids.len()
            invariant
                old(self).wf(),
                self.wf(),
                ids@.len() == old(self).devices().len(),
                forall|k: int|
                    0 <= k < ids@.len() ==> (#[trigger] ids@[k])@ == old(self).devices()[k].0,
                self.global_limit() == old(self).global_limit(),
                self.limits() == old(self).limits(),
                self.devices().len() == old(self).devices().len(),
                forall|k: int|
                    0 <= k < old(self).devices().len() ==> (#[trigger] self.devices()[k]).0 == old(
                    self).devices()[k].0 && self.devices()[k].1 == old(self).devices()[k].1,
                forall|k: int|
                    j <= k < old(self).devices().len() ==> (#[trigger] self.devices()[k]).2 == old(
                    self).devices()[k].2,
                forall|k: int|
                    0 <= k < j ==> (#[trigger] self.devices()[k]).2 <= old(self).devices()[k].2,
                forall|k: int|
                    0 <= k < j ==> (#[trigger] self.devices()[k]).2 == old(self).devices()[k].2
                        || self.devices()[k].2 == clamped(
                        old(self).devices()[k].2,
                        old(self).effective_limit(old(self).devices()[k].0),
                    ),
                res is Ok ==> forall|k: int|
                    0 <= k < j ==> (#[trigger] self.devices()[k]).2 == clamped(
                        old(self).devices()[k].2,
                        old(self).effective_limit(old(self).devices()[k].0),
                    ),
                res is Err ==> res->Err_0 is Query,
                ids@.len() == 0 ==> res is Ok,
            decreases ids@.len() - j,
        {
            let ghost before = *self;
            let one = self.apply_max_volume(ids[j].as_str());
            proof {
                // the id at j is cached, so the call cannot fail NotFound,
                // and unique ids mean only entry j was touched
                assert(before.devices()[j as int].0 == ids@[j as int]@);
                assert(before.cache_has(ids@[j as int]@));
                assert forall|k: int|
                    0 <= k < old(self).devices().len() && k != j implies (
                #[trigger] self.devices()[k]).2 == before.devices()[k].2 by {
                    assert(before.devices()[k].0 != ids@[j as int]@);
                }
                assert(before.effective_limit(ids@[j as int]@) == old(self).effective_limit(
                    old(self).devices()[j as int].0,
                ));
            }
            if res.is_ok() {
                res = one;
            }
            j += 1;
        }
        res
    }

    /// Stores the global ceiling, then reconciles every cached device.
    /// An out-of-range volume is rejected without mutating anything.
    /// Negative inputs cannot be expressed by the volume representation.
    pub fn set_global_max_volume(&mut self, max_volume: u32) -> (r: Result<(), AudioError>)
        requires
            old(self).wf(),
        ensures
            final(self).wf(),
            !valid_volume(max_volume) ==> r == Err::<(), AudioError>(AudioError::Validation)
                && *final(self) == *old(self),
            valid_volume(max_volume) ==> {
                &&& final(self).global_limit() == max_volume
                &&& final(self).limits() == old(self).limits()
                &&& final(self).devices().len() == old(self).devices().len()
                &&& forall|i: int|
                    0 <= i < old(self).devices().len() ==> (#[trigger] final(self).devices()[i]).0
                        == old(self).devices()[i].0 && final(self).devices()[i].1
                        == old(self).devices()[i].1
                &&& forall|i: int|
                    0 <= i < old(self).devices().len() ==> (#[trigger] final(self).devices()[i]).2
                        <= old(self).devices()[i].2
                &&& forall|i: int|
                    0 <= i < old(self).devices().len() ==> (#[trigger] final(self).devices()[i]).2
                        == old(self).devices()[i].2 || final(self).devices()[i].2 == clamped(
                        old(self).devices()[i].2,
                        final(self).effective_limit(old(self).devices()[i].0),
                    )
                &&& (r is Ok ==> forall|i: int|
                    0 <= i < old(self).devices().len() ==> (#[trigger] final(self).devices()[i]).2
                        == clamped(
                        old(self).devices()[i].2,
                        final(self).effective_limit(old(self).devices()[i].0),
                    ))
                &&& (r is Err ==> r->Err_0 is Query)
                &&& (old(self).devices().len() == 0 ==> r is Ok)
            },
    {
        if max_volume > VOLUME_SCALE {
            return Err(AudioError::Validation);
        }
        self.global_max_volume = max_volume;
        self.apply_volume_limits()
    }

    /// Replaces the cache wholesale with the given enumeration batch,
    /// even when nothing changed: the id and name of every device are
    /// read once (empty where that query fails), a later duplicate id
    /// replaces the earlier entry, and no previous entry survives.
    /// Returns whether the set of cached ids changed; the batch's
    /// order never enters that set, and a rename of an existing id is
    /// invisible to it.
    pub fn refresh_cache_with(&mut self, devices: Vec<D>) -> (changed: bool)
        requires
            old(self).wf(),
        ensures
            final(self).wf(),
            final(self).global_limit() == old(self).global_limit(),
            final(self).limits() == old(self).limits(),
            changed == (final(self).id_set() != old(self).id_set()),
            exists|ids: Seq<Seq<char>>, names: Seq<Seq<char>>|
                {
                    &&& #[trigger] batch_reads(devices@, ids, names)
                    &&& final(self).cache_entries() == rebuild_model(
                        Seq::<(Seq<char>, Seq<char>, D)>::empty(),
                        devices@,
                        ids,
                        names,
                    )
                    &&& final(self).id_set() == ids.to_set()
                },
    {
        let ghost b0 = devices@;
        let mut batch = devices;
        let mut new_cache: Vec<CachedDevice<D>> = Vec::new();
        let ghost mut i: int = 0;
        let ghost mut ids: Seq<Seq<char>> = Seq::empty();
        let ghost mut names: Seq<Seq<char>> = Seq::empty();
        proof {
            assert(b0.take(0) =~= Seq::<D>::empty());
            assert(b0.skip(0) =~= b0);
            assert(cache_entries_of(new_cache@) =~= Seq::<(Seq<char>, Seq<char>, D)>::empty());
        }
        while batch.len() > 0
            invariant
                0 <= i,
                i + batch@.len() == b0.len(),
                batch@ == b0.skip(i),
                ids.len() == i,
                names.len() == i,
                batch_reads(b0.take(i), ids, names),
                cache_entries_of(new_cache@) == rebuild_model(
                    Seq::<(Seq<char>, Seq<char>, D)>::empty(),
                    b0.take(i),
                    ids,
                    names,
                ),
                forall|a: int, b: int|
                    0 <= a < b < new_cache@.len() ==> (#[trigger] new_cache@[a].id@) != (
                    #[trigger] new_cache@[b].id@),
            decreases batch@.len(),
        {
            let d = batch.remove(0);
            proof {
                assert(b0.skip(i)[0] == b0[i]);
                assert(d == b0[i]);
                assert(b0.skip(i).skip(1) =~= b0.skip(i + 1));
            }
            let id = match d.get_id() {
                Ok(s) => s,
                Err(_) => String::new(),
            };
            let name = match d.get_name() {
                Ok(s) => s,
                Err(_) => String::new(),
            };
            let ghost read_id = id@;
            let ghost read_name = name@;
            proof {
                assert(read_id == b0[i].id() || read_id == Seq::<char>::empty());
                assert(read_name == b0[i].name() || read_name == Seq::<char>::empty());
            }
            let entry = CachedDevice { id, name, device: d };
            let ghost pre_entries = cache_entries_of(new_cache@);
            match find_entry(&new_cache, &entry.id) {
                Some(j) => {
                    proof {
                        // the executable search and the spec search agree
                        // on the first entry carrying this id
                        assert(pre_entries[j as int].0 == read_id);
                        assert(forall|k: int|
                            0 <= k < j ==> (#[trigger] pre_entries[k]).0 == new_cache@[k].id@);
                        lemma_cache_find_props(pre_entries, read_id);
                        assert(cache_find(pre_entries, read_id) == j as int);
                    }
                    new_cache.set(j, entry);
                    proof {
                        assert(cache_entries_of(new_cache@) =~= pre_entries.update(
                            j as int,
                            (read_id, read_name, b0[i]),
                        ));
                    }
                },
                None => {
                    proof {
                        assert(forall|k: int|
                            0 <= k < pre_entries.len() ==> (#[trigger] pre_entries[k]).0
                                == new_cache@[k].id@);
                        lemma_cache_find_props(pre_entries, read_id);
                        assert(cache_find(pre_entries, read_id) == -1);
                    }
                    new_cache.push(entry);
                    proof {
                        assert(cache_entries_of(new_cache@) =~= pre_entries.push(
                            (read_id, read_name, b0[i]),
                        ));
                    }
                },
            }
            proof {
                lemma_rebuild_snoc(
                    Seq::<(Seq<char>, Seq<char>, D)>::empty(),
                    b0.take(i),
                    ids,
                    names,
                    b0[i],
                    read_id,
                    read_name,
                );
                assert(b0.take(i).push(b0[i]) =~= b0.take(i + 1));
                ids = ids.push(read_id);
                names = names.push(read_name);
                assert(batch_reads(b0.take(i + 1), ids, names)) by {
                    assert(ids[i] == read_id);
                    assert(names[i] == read_name);
                    assert(forall|k: int|
                        0 <= k < i + 1 ==> (#[trigger] b0.take(i + 1)[k]) == b0[k]);
                    assert(forall|k: int| 0 <= k < i ==> (#[trigger] b0.take(i)[k]) == b0[k]);
                }
                assert(cache_entries_of(new_cache@) == rebuild_model(
                    Seq::<(Seq<char>, Seq<char>, D)>::empty(),
                    b0.take(i + 1),
                    ids,
                    names,
                ));
                i = i + 1;
            }
        }
        proof {
            assert(b0.take(i) =~= b0);
        }
        let mut changed = new_cache.len() != self.device_cache.len();
        let mut j: usize = 0;
        while j < new_cache.len()
            invariant
                old(self).wf(),
                *self == *old(self),
                j <= new_cache@.len(),
                forall|a: int, b: int|
                    0 <= a < b < new_cache@.len() ==> (#[trigger] new_cache@[a].id@) != (
                    #[trigger] new_cache@[b].id@),
                changed == (new_cache@.len() != old(self).devices().len() || exists|k: int|
                    0 <= k < j && !old(self).id_set().contains((#[trigger] new_cache@[k]).id@)),
            decreases new_cache@.len() - j,
        {
            if !changed {
                match find_entry(&self.device_cache, &new_cache[j].id) {
                    Some(i) => {
                        proof {
                            assert(old(self).device_ids()[i as int] == new_cache@[j as int].id@);
                            assert(old(self).device_ids().contains(new_cache@[j as int].id@));
                            assert(old(self).id_set().contains(new_cache@[j as int].id@));
                        }
                    },
                    None => {
                        changed = true;
                        proof {
                            assert forall|i: int|
                                0 <= i < old(self).device_ids().len() implies (
                            #[trigger] old(self).device_ids()[i]) != new_cache@[j as int].id@ by {
                                assert(old(self).device_ids()[i]
                                    == old(self).device_cache@[i].id@);
                            }
                            assert(!old(self).device_ids().contains(new_cache@[j as int].id@));
                            assert(!old(self).id_set().contains(new_cache@[j as int].id@));
                        }
                    },
                }
            }
            j += 1;
        }
        let ghost new_entries = cache_entries_of(new_cache@);
        self.device_cache = new_cache;
        proof {
            broadcast use vstd::seq_lib::seq_to_set_is_finite;

            let a = old(self).device_ids();
            let b = self.device_ids();
            assert(b.len() == new_entries.len());
            assert(forall|i: int, j2: int| 0 <= i < j2 < b.len() ==> b[i] != b[j2]);
            a.unique_seq_to_set();
            b.unique_seq_to_set();
            if !changed {
                assert forall|x: Seq<char>| b.to_set().contains(x) implies a.to_set().contains(
                    x,
                ) by {
                    let k = choose|k: int| 0 <= k < b.len() && b[k] == x;
                    assert(b[k] == self.device_cache@[k].id@);
                    assert(a.to_set().contains(b[k]));
                }
                vstd::set_lib::lemma_subset_equality(b.to_set(), a.to_set());
            } else {
                if b.len() == a.len() {
                    let k = choose|k: int|
                        0 <= k < b.len() && !a.to_set().contains(
                            (#[trigger] self.device_cache@[k]).id@,
                        );
                    assert(b[k] == self.device_cache@[k].id@);
                    assert(b.to_set().contains(b[k]));
                    assert(b.to_set() != a.to_set());
                } else {
                    assert(b.to_set().len() != a.to_set().len());
                }
            }
            // the stored id set is exactly the set of ids as read
            lemma_rebuild_id_set(Seq::<(Seq<char>, Seq<char>, D)>::empty(), b0, ids, names);
            assert(entry_ids(Seq::<(Seq<char>, Seq<char>, D)>::empty()).to_set() =~= Set::<
                Seq<char>,
            >::empty());
            assert(entry_ids(new_entries).to_set() =~= ids.to_set());
            assert(self.device_ids() =~= entry_ids(self.cache_entries()));
            assert(self.id_set() == ids.to_set());
            assert(batch_reads(b0, ids, names));
        }
        changed
    }

    /// Re-enumerates the devices and hands the batch to
    /// [`Self::refresh_cache_with`], which replaces the cache wholesale
    /// even when nothing changed.  Returns whether the set of cached
    /// ids differs from before the call.  On enumeration failure
    /// nothing is replaced.
    pub fn update_devices(&mut self) -> (r: Result<bool, AudioError>)
        requires
            old(self).wf(),
        ensures
            final(self).wf(),
            final(self).global_limit() == old(self).global_limit(),
            final(self).limits() == old(self).limits(),
            r is Err ==> *final(self) == *old(self) && r->Err_0 is Enumeration,
            r is Ok ==> r->Ok_0 == (final(self).id_set() != old(self).id_set()),
            r is Ok ==> cache_coherent(final(self).cache_entries()),
    {
        let batch = match self.device_enumerator.get_devices() {
            Ok(v) => v,
            Err(msg) => {
                return Err(AudioError::Enumeration(msg));
            },
        };
        let ghost gb = batch@;
        let changed = self.refresh_cache_with(batch);
        proof {
            let (ids, names) = choose|ids: Seq<Seq<char>>, names: Seq<Seq<char>>|
                {
                    &&& #[trigger] batch_reads(gb, ids, names)
                    &&& self.cache_entries() == rebuild_model(
                        Seq::<(Seq<char>, Seq<char>, D)>::empty(),
                        gb,
                        ids,
                        names,
                    )
                    &&& self.id_set() == ids.to_set()
                };
            assert(cache_coherent(Seq::<(Seq<char>, Seq<char>, D)>::empty()));
            lemma_rebuild_coherent(Seq::<(Seq<char>, Seq<char>, D)>::empty(), gb, ids, names);
        }
        Ok(changed)
    }
}

} // verus!
