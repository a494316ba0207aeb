//! Device capabilities, the persisted record, and the error taxonomy.
//!
//! The OS audio API is reached only through the [`AudioDevice`] and
//! [`AudioDeviceEnumerator`] capability traits.  An implementation lives
//! outside this crate; the contracts written on the trait methods are the
//! interface that the controller's proofs rest on.

use vstd::prelude::*;

use crate::volume::{valid_volume, VOLUME_SCALE};

verus! {

/// How a controller operation can fail.
#[derive(Debug, Clone, PartialEq, Eq)]
pub enum AudioError {
    /// An input volume lay outside `[0.0, 1.0]`.  Nothing was mutated.
    Validation,
    /// The operation targeted a device id that is no longer cached.
    NotFound,
    /// The enumerator could not list devices; carries its message.
    Enumeration(String),
    /// A device's volume or metadata call failed; carries its message.
    Query(String),
}

/// One live render endpoint: stable id, display name, and a get/set
/// volume scalar pair.
///
/// `volume`, `id` and `name` are the models of what the endpoint
/// reports: a getter that succeeds reports exactly the model, and a
/// volume setter that succeeds moves the volume model to the requested
/// value; a setter that fails leaves it unchanged.  Callers must
/// validate a volume before passing it to `set_volume`.
pub trait AudioDevice: Sized {
    /// The device's current volume scalar, in millionths.
    spec fn volume(&self) -> int;

    /// The device's stable id.
    spec fn id(&self) -> Seq<char>;

    /// The device's display name.
    spec fn name(&self) -> Seq<char>;

    fn get_id(&self) -> (r: Result<String, String>)
        ensures
            r is Ok ==> r->Ok_0@ == self.id(),
    ;

    fn get_name(&self) -> (r: Result<String, String>)
        ensures
            r is Ok ==> r->Ok_0@ == self.name(),
    ;

    fn get_volume(&self) -> (r: Result<u32, String>)
        ensures
            r is Ok ==> r->Ok_0 == self.volume() && valid_volume(r->Ok_0),
    ;

    fn set_volume(&mut self, volume: u32) -> (r: Result<(), String>)
        requires
            valid_volume(volume),
        ensures
            r is Ok ==> final(self).volume() == volume,
            r is Err ==> final(self).volume() == old(self).volume(),
    ;
}

/// Produces the current list of render endpoints.  No ordering is
/// guaranteed, and the list may differ from call to call.
pub trait AudioDeviceEnumerator<D: AudioDevice>: Sized {
    fn init() -> (r: Result<Self, String>);

    fn get_devices(&self) -> (r: Result<Vec<D>, String>);
}

/// A read-only projection of one cached device for the presentation
/// layer.  `max_volume` is the effective ceiling applicable to the
/// device, not the raw override.
#[derive(Debug, Clone, PartialEq, Eq)]
pub struct AudioDeviceInfo {
    pub id: String,
    pub name: String,
    pub max_volume: u32,
}

/// The persisted record: the global ceiling and the per-device
/// overrides, keyed by device id.  Keys are unique and every volume lies
/// in `[0.0, 1.0]`.
#[derive(Debug, Clone, PartialEq, Eq)]
pub struct AudioDeviceConfig {
    pub global_max_volume: u32,
    pub device_max_volumes: Vec<(String, u32)>,
}

impl AudioDeviceConfig {
    /// The override table as a sequence of (id, volume) pairs.
    pub open spec fn limits(self) -> Seq<(Seq<char>, u32)> {
        self.device_max_volumes@.map_values(|p: (String, u32)| (p.0@, p.1))
    }

    pub open spec fn wf(self) -> bool {
        valid_volume(self.global_max_volume) && limits_wf(self.limits())
    }
}

impl Default for AudioDeviceConfig {
    /// The default record: full volume allowed everywhere, no overrides.
    fn default() -> (r: Self)
        ensures
            r.global_max_volume == VOLUME_SCALE,
            r.device_max_volumes@ == Seq::<(String, u32)>::empty(),
            r.wf(),
    {
        AudioDeviceConfig { global_max_volume: VOLUME_SCALE, device_max_volumes: Vec::new() }
    }
}

/// An override table is well formed when its keys are unique and its
/// volumes valid.
pub open spec fn limits_wf(s: Seq<(Seq<char>, u32)>) -> bool {
    (forall|i: int, j: int| 0 <= i < j < s.len() ==> s[i].0 != s[j].0) && (forall|i: int|
        0 <= i < s.len() ==> valid_volume(#[trigger] s[i].1))
}

/// The override stored for `id`: the first pair carrying that key.
pub open spec fn vol_lookup(s: Seq<(Seq<char>, u32)>, id: Seq<char>) -> Option<u32>
    decreases s.len(),
{
    if s.len() == 0 {
        None
    } else if s[0].0 == id {
        Some(s[0].1)
    } else {
        vol_lookup(s.skip(1), id)
    }
}

/// Whether some pair of the table carries the key `id`.
pub open spec fn has_limit(s: Seq<(Seq<char>, u32)>, id: Seq<char>) -> bool {
    exists|i: int| 0 <= i < s.len() && #[trigger] s[i].0 == id
}

/// A key that no pair carries looks up to nothing.
pub proof fn lemma_vol_lookup_absent(s: Seq<(Seq<char>, u32)>, id: Seq<char>)
    requires
        forall|i: int| 0 <= i < s.len() ==> #[trigger] s[i].0 != id,
    ensures
        vol_lookup(s, id) is None,
    decreases s.len(),
{
    if s.len() > 0 {
        assert(s[0].0 != id);
        assert(forall|i: int|
            0 <= i < s.skip(1).len() ==> #[trigger] s.skip(1)[i].0 == s[i + 1].0);
        lemma_vol_lookup_absent(s.skip(1), id);
    }
}

/// The first pair carrying a key decides what the key looks up to.
pub proof fn lemma_vol_lookup_found(s: Seq<(Seq<char>, u32)>, id: Seq<char>, i: int)
    requires
        0 <= i < s.len(),
        s[i].0 == id,
        forall|j: int| 0 <= j < i ==> #[trigger] s[j].0 != id,
    ensures
        vol_lookup(s, id) == Some(s[i].1),
    decreases s.len(),
{
    if i == 0 {
    } else {
        assert(s[0].0 != id);
        assert(s.skip(1)[i - 1] == s[i]);
        assert(forall|j: int|
            0 <= j < i - 1 ==> #[trigger] s.skip(1)[j].0 == s[j + 1].0);
        lemma_vol_lookup_found(s.skip(1), id, i - 1);
    }
}

/// A key looks up to something exactly when some pair carries it.
pub proof fn lemma_vol_lookup_some(s: Seq<(Seq<char>, u32)>, id: Seq<char>)
    ensures
        vol_lookup(s, id) is Some <==> has_limit(s, id),
{
    if has_limit(s, id) {
        let i = choose|i: int| 0 <= i < s.len() && #[trigger] s[i].0 == id;
        if exists|j: int| 0 <= j < i && #[trigger] s[j].0 == id {
            // Some earlier pair may also carry the key; take the first.
            let k = first_with_key(s, id, i);
            lemma_vol_lookup_found(s, id, k);
        } else {
            lemma_vol_lookup_found(s, id, i);
        }
    } else {
        assert(forall|i: int| 0 <= i < s.len() ==> #[trigger] s[i].0 != id);
        lemma_vol_lookup_absent(s, id);
    }
}

/// Changing the volume stored at one index leaves every other key's
/// lookup untouched.
pub proof fn lemma_vol_lookup_update_other(
    s: Seq<(Seq<char>, u32)>,
    t: Seq<(Seq<char>, u32)>,
    i: int,
    id: Seq<char>,
)
    requires
        0 <= i < s.len(),
        t.len() == s.len(),
        forall|k: int| 0 <= k < s.len() && k != i ==> s[k] == #[trigger] t[k],
        t[i].0 == s[i].0,
        id != s[i].0,
    ensures
        vol_lookup(t, id) == vol_lookup(s, id),
    decreases s.len(),
{
    if i == 0 {
        assert(t.skip(1) =~= s.skip(1));
    } else {
        assert(t[0] == s[0]);
        if s[0].0 != id {
            assert(forall|k: int|
                0 <= k < s.skip(1).len() && k != i - 1 ==> s.skip(1)[k] == #[trigger] t.skip(1)[k]);
            lemma_vol_lookup_update_other(s.skip(1), t.skip(1), i - 1, id);
        }
    }
}

/// What appending a pair does to a lookup: an already present key is
/// unaffected, an absent one now finds the new pair if it carries it.
pub proof fn lemma_vol_lookup_push(s: Seq<(Seq<char>, u32)>, p: (Seq<char>, u32), id: Seq<char>)
    ensures
        vol_lookup(s.push(p), id) == if vol_lookup(s, id) is Some {
            vol_lookup(s, id)
        } else if p.0 == id {
            Some(p.1)
        } else {
            None
        },
    decreases s.len(),
{
    if s.len() == 0 {
        assert(s.push(p).len() == 1);
        assert(s.push(p)[0] == p);
        assert(s.push(p).skip(1) =~= Seq::<(Seq<char>, u32)>::empty());
        if p.0 == id {
            assert(vol_lookup(s.push(p), id) == Some(p.1));
        } else {
            assert(vol_lookup(s.push(p), id) == vol_lookup(s.push(p).skip(1), id));
            assert(vol_lookup(s.push(p), id) is None);
        }
    } else {
        assert(s.push(p)[0] == s[0]);
        assert(s.push(p).skip(1) =~= s.skip(1).push(p));
        lemma_vol_lookup_push(s.skip(1), p, id);
        if s[0].0 == id {
            assert(vol_lookup(s.push(p), id) == Some(s[0].1));
            assert(vol_lookup(s, id) == Some(s[0].1));
        } else {
            assert(vol_lookup(s.push(p), id) == vol_lookup(s.skip(1).push(p), id));
            assert(vol_lookup(s, id) == vol_lookup(s.skip(1), id));
        }
    }
}

/// The least index `<= bound` whose pair carries `id`, given that `bound`
/// itself does.
proof fn first_with_key(s: Seq<(Seq<char>, u32)>, id: Seq<char>, bound: int) -> (k: int)
    requires
        0 <= bound < s.len(),
        s[bound].0 == id,
    ensures
        0 <= k < s.len(),
        s[k].0 == id,
        forall|j: int| 0 <= j < k ==> #[trigger] s[j].0 != id,
    decreases bound,
{
    if exists|j: int| 0 <= j < bound && #[trigger] s[j].0 == id {
        let j = choose|j: int| 0 <= j < bound && #[trigger] s[j].0 == id;
        first_with_key(s, id, j)
    } else {
        bound
    }
}

} // verus!
