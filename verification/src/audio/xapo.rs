//! Audio effects: their registration, their instances, and chains of them.
use crate::utf16::{decoded, encode, encoded, lemma_decoded_encoded};
use vstd::prelude::*;

verus! {

/// The class of audio processing objects.
pub const CLSID_XAPO: [u8; 16] = [
    0xC3, 0xB1, 0xC3, 0x5E, 0x4B, 0x5E, 0x4E, 0x4F, 0xB0, 0xE0, 0x7B, 0x7D, 0x1E, 0x7B, 0x9E, 0x7C,
];

/// The interface of audio processing objects.
pub const IID_IXAPO: [u8; 16] = [
    0x34, 0x9C, 0x10, 0xA1, 0x6B, 0xE4, 0xC7, 0x47, 0x8E, 0x0F, 0x7B, 0x7D, 0x1E, 0x7B, 0x9E, 0x7C,
];

/// The interface of the parameters of audio processing objects.
#[allow(non_upper_case_globals)]
pub const IID_IXAPOParameters: [u8; 16] = [
    0x35, 0x9C, 0x10, 0xA1, 0x6B, 0xE4, 0xC7, 0x47, 0x8E, 0x0F, 0x7B, 0x7D, 0x1E, 0x7B, 0x9E, 0x7D,
];

/// The effect can work in place.
pub const XAPO_FLAG_INPLACE: u32 = 0x0001;

/// The effect takes as many buffers as it gives.
pub const XAPO_FLAG_BUFFERCOUNT_MUST_EQUAL: u32 = 0x0004;

/// The buffer holds silence.
pub const XAPO_BUFFER_SILENT: u32 = 0x0001;

/// The buffer holds sound.
pub const XAPO_BUFFER_VALID: u32 = 0x0002;

/// The size of a name in a registration, with the zero behind it.
pub const NAME_UNITS: usize = 256;

/// What is registered of an effect.
#[allow(non_camel_case_types)]
#[derive(Debug, Clone)]
pub struct XAPO_REGISTRATION_PROPERTIES {
    /// The class of the effect.
    pub clsid: [u8; 16],
    /// The name of the effect in UTF-16, ended by zero.
    pub friendly_name: [u16; 256],
    /// The copyright in UTF-16, ended by zero.
    pub copyright_info: [u16; 256],
    pub major_version: u32,
    pub minor_version: u32,
    pub flags: u32,
    pub min_input_buffer_count: u32,
    pub max_input_buffer_count: u32,
    pub min_output_buffer_count: u32,
    pub max_output_buffer_count: u32,
}

/// The UTF-16 units of a name, cut off after 255 of them, and zeros behind.
pub open spec fn name_units(name: Seq<char>) -> Seq<u16> {
    let units = encoded(name);
    Seq::new(
        256,
        |i: int|
            if i < 255 && i < units.len() {
                units[i]
            } else {
                0
            },
    )
}

/// The registration of an effect of the first version, with one buffer in and
/// one out.
pub open spec fn is_first_version(
    properties: XAPO_REGISTRATION_PROPERTIES,
    clsid: [u8; 16],
    name: Seq<char>,
    flags: u32,
) -> bool {
    &&& properties.clsid == clsid
    &&& properties.friendly_name@ == name_units(name)
    &&& properties.copyright_info@ == name_units("Casa1 XAPO Effect"@)
    &&& properties.major_version == 1
    &&& properties.minor_version == 0
    &&& properties.flags == flags
    &&& properties.min_input_buffer_count == 1
    &&& properties.max_input_buffer_count == 1
    &&& properties.min_output_buffer_count == 1
    &&& properties.max_output_buffer_count == 1
}

fn name_buffer(name: &str) -> (buffer: [u16; 256])
    ensures
        buffer@ == name_units(name@),
{
    let units: Vec<u16> = encode(name);
    let mut buffer: [u16; 256] = [0; 256];
    let mut i: usize = 0;
    while i < 255 && i < units.len()
        invariant
            i <= 255,
            i <= units.len(),
            units@ == encoded(name@),
            forall|k: int| 0 <= k < 256 ==> buffer@[k] == (if k < i {
                units@[k]
            } else {
                0
            }),
        decreases 255 - i,
    {
        buffer[i] = units[i];
        i += 1;
    }
    assert(buffer@ =~= name_units(name@));
    buffer
}

impl XAPO_REGISTRATION_PROPERTIES {
    /// The registration of an effect of the first version, with one buffer in
    /// and one out.
    pub fn new(clsid: [u8; 16], friendly_name: &str, flags: u32) -> (properties: Self)
        ensures
            is_first_version(properties, clsid, friendly_name@, flags),
    {
        XAPO_REGISTRATION_PROPERTIES {
            clsid,
            friendly_name: name_buffer(friendly_name),
            copyright_info: name_buffer("Casa1 XAPO Effect"),
            major_version: 1,
            minor_version: 0,
            flags,
            min_input_buffer_count: 1,
            max_input_buffer_count: 1,
            min_output_buffer_count: 1,
            max_output_buffer_count: 1,
        }
    }

    /// A copy of the registration.
    pub fn duplicate(&self) -> (copy: Self)
        ensures
            copy == *self,
    {
        XAPO_REGISTRATION_PROPERTIES {
            clsid: self.clsid,
            friendly_name: self.friendly_name,
            copyright_info: self.copyright_info,
            major_version: self.major_version,
            minor_version: self.minor_version,
            flags: self.flags,
            min_input_buffer_count: self.min_input_buffer_count,
            max_input_buffer_count: self.max_input_buffer_count,
            min_output_buffer_count: self.min_output_buffer_count,
            max_output_buffer_count: self.max_output_buffer_count,
        }
    }
}

// ---------------------------------------------------------------------------
// Chains of effects
// ---------------------------------------------------------------------------

/// Effects that sound passes through one after the other.
#[derive(Debug)]
pub struct XapoEffectChain {
    chain: Vec<u64>,
}

impl View for XapoEffectChain {
    type V = Seq<u64>;

    closed spec fn view(&self) -> Seq<u64> {
        self.chain@
    }
}

impl XapoEffectChain {
    /// A chain without effects.
    pub fn new() -> (chain: Self)
        ensures
            chain@ == Seq::<u64>::empty(),
    {
        XapoEffectChain { chain: Vec::new() }
    }

    /// A chain of the given effects.
    pub fn from_handles(handles: Vec<u64>) -> (chain: Self)
        ensures
            chain@ == handles@,
    {
        XapoEffectChain { chain: handles }
    }

    /// Adds an effect at the end.
    pub fn push(&mut self, handle: u64)
        ensures
            final(self)@ == old(self)@.push(handle),
    {
        self.chain.push(handle);
    }

    /// Removes the last effect.
    pub fn pop(&mut self) -> (handle: Option<u64>)
        ensures
            match handle {
                Some(last) => old(self)@.len() > 0 && last == old(self)@.last() && final(self)@
                    == old(self)@.drop_last(),
                None => old(self)@.len() == 0 && final(self)@ == old(self)@,
            },
    {
        self.chain.pop()
    }

    /// Inserts an effect; nothing changes where `index` lies behind the end.
    pub fn insert(&mut self, index: usize, handle: u64)
        ensures
            final(self)@ == (if index <= old(self)@.len() {
                old(self)@.insert(index as int, handle)
            } else {
                old(self)@
            }),
    {
        if index <= self.chain.len() {
            self.chain.insert(index, handle);
        }
    }

    /// Removes the effect at `index`.
    pub fn remove(&mut self, index: usize) -> (handle: Option<u64>)
        ensures
            if index < old(self)@.len() {
                handle == Some(old(self)@[index as int]) && final(self)@ == old(self)@.remove(
                    index as int,
                )
            } else {
                handle is None && final(self)@ == old(self)@
            },
    {
        if index < self.chain.len() {
            Some(self.chain.remove(index))
        } else {
            None
        }
    }

    /// The number of effects.
    pub fn len(&self) -> (count: usize)
        ensures
            count == self@.len(),
    {
        self.chain.len()
    }

    /// Whether there is no effect.
    pub fn is_empty(&self) -> (empty: bool)
        ensures
            empty == (self@.len() == 0),
    {
        self.chain.len() == 0
    }

    /// The effects in order.
    pub fn handles(&self) -> (handles: &[u64])
        ensures
            handles@ == self@,
    {
        self.chain.as_slice()
    }

    /// The steps by which sound passes through the chain: each effect, and
    /// whether it writes to the output. All others write to what the next
    /// effect reads. There are none for an empty chain, which copies.
    pub fn steps(&self) -> (steps: Vec<(u64, bool)>)
        ensures
            steps@ == Seq::new(self@.len(), |i: int| (self@[i], i == self@.len() - 1)),
    {
        let ghost all = Seq::new(self@.len(), |i: int| (self@[i], i == self@.len() - 1));
        let mut steps: Vec<(u64, bool)> = Vec::new();
        let mut i: usize = 0;
        while i < self.chain.len()
            invariant
                i <= self.chain.len(),
                all == Seq::new(self@.len(), |k: int| (self@[k], k == self@.len() - 1)),
                steps@ == all.take(i as int),
            decreases self.chain.len() - i,
        {
            steps.push((self.chain[i], i == self.chain.len() - 1));
            assert(steps@ =~= all.take(i + 1));
            i += 1;
        }
        assert(all.take(i as int) =~= all);
        steps
    }
}

impl Default for XapoEffectChain {
    fn default() -> (chain: Self)
        ensures
            chain@ == Seq::<u64>::empty(),
    {
        XapoEffectChain::new()
    }
}

/// A voice and the chain that it passes through.
#[derive(Debug)]
pub struct VoiceEffectChain {
    voice_id: u64,
    chain: XapoEffectChain,
    enabled: bool,
}

impl VoiceEffectChain {
    /// The voice.
    pub closed spec fn voice(&self) -> u64 {
        self.voice_id
    }

    /// The effects of the voice.
    pub closed spec fn effects(&self) -> XapoEffectChain {
        self.chain
    }

    /// The effects count.
    pub closed spec fn active(&self) -> bool {
        self.enabled
    }

    /// A voice without effects.
    pub fn new(voice_id: u64) -> (chain: Self)
        ensures
            chain.voice() == voice_id,
            chain.effects()@ == Seq::<u64>::empty(),
            chain.active(),
    {
        VoiceEffectChain { voice_id, chain: XapoEffectChain::new(), enabled: true }
    }

    /// The voice.
    pub fn voice_id(&self) -> (voice: u64)
        ensures
            voice == self.voice(),
    {
        self.voice_id
    }

    /// The effects of the voice.
    pub fn chain(&self) -> (chain: &XapoEffectChain)
        ensures
            *chain == self.effects(),
    {
        &self.chain
    }

    /// The effects of the voice, to change.
    pub fn chain_mut(&mut self) -> (chain: &mut XapoEffectChain)
        ensures
            *chain == old(self).effects(),
            final(self).effects() == *final(chain),
            final(self).voice() == old(self).voice(),
            final(self).active() == old(self).active(),
    {
        &mut self.chain
    }

    /// Switches the effects on or off.
    pub fn set_enabled(&mut self, enabled: bool)
        ensures
            final(self).active() == enabled,
            final(self).voice() == old(self).voice(),
            final(self).effects() == old(self).effects(),
    {
        self.enabled = enabled;
    }

    /// Whether the effects are on.
    pub fn is_enabled(&self) -> (enabled: bool)
        ensures
            enabled == self.active(),
    {
        self.enabled
    }
}

// ---------------------------------------------------------------------------
// Registered effects and their instances
// ---------------------------------------------------------------------------

/// An effect that can be created.
#[derive(Debug)]
pub struct RegisteredEffect {
    pub clsid: [u8; 16],
    pub registration: XAPO_REGISTRATION_PROPERTIES,
}

/// An effect that was created.
#[derive(Debug)]
pub struct XapoInstance {
    pub handle: u64,
    /// The class that it was created from.
    pub clsid: [u8; 16],
    /// What the effect says of itself.
    pub registration: XAPO_REGISTRATION_PROPERTIES,
    /// The channels that it works on.
    pub channels: u16,
}

/// The place of a class among the registered effects; their number where it
/// is not registered.
pub open spec fn place_of(effects: Seq<RegisteredEffect>, clsid: Seq<u8>, from: int) -> int
    decreases effects.len() - from,
{
    if from < 0 || from >= effects.len() {
        effects.len() as int
    } else if effects[from].clsid@ == clsid {
        from
    } else {
        place_of(effects, clsid, from + 1)
    }
}

/// The effects with one more, in place of one of the same class.
pub open spec fn with_effect(effects: Seq<RegisteredEffect>, effect: RegisteredEffect) -> Seq<
    RegisteredEffect,
> {
    let place = place_of(effects, effect.clsid@, 0);
    if place < effects.len() {
        effects.update(place, effect)
    } else {
        effects.push(effect)
    }
}

/// The effects with the first `count` of others.
pub open spec fn with_effects(
    effects: Seq<RegisteredEffect>,
    others: Seq<RegisteredEffect>,
    count: int,
) -> Seq<RegisteredEffect>
    decreases count,
{
    if count <= 0 {
        effects
    } else {
        with_effect(with_effects(effects, others, count - 1), others[count - 1])
    }
}

/// The place of an instance; the number of instances where there is none.
pub open spec fn instance_place(instances: Seq<XapoInstance>, handle: u64, from: int) -> int
    decreases instances.len() - from,
{
    if from < 0 || from >= instances.len() {
        instances.len() as int
    } else if instances[from].handle == handle {
        from
    } else {
        instance_place(instances, handle, from + 1)
    }
}

fn same_class(a: &[u8; 16], b: &[u8; 16]) -> (same: bool)
    ensures
        same == (a@ == b@),
{
    let mut i: usize = 0;
    while i < 16
        invariant
            i <= 16,
            forall|k: int| 0 <= k < i ==> a@[k] == b@[k],
        decreases 16 - i,
    {
        if a[i] != b[i] {
            return false;
        }
        i += 1;
    }
    assert(a@ =~= b@);
    true
}

/// Effects by class, and the instances that were made of them.
pub struct XapoManager {
    effects: Vec<RegisteredEffect>,
    instances: Vec<XapoInstance>,
    next_handle: u64,
}

impl XapoManager {
    /// The registered effects.
    pub closed spec fn registered(&self) -> Seq<RegisteredEffect> {
        self.effects@
    }

    /// The instances, in the order in which they were made.
    pub closed spec fn running(&self) -> Seq<XapoInstance> {
        self.instances@
    }

    /// The handle of the next instance.
    pub closed spec fn next(&self) -> u64 {
        self.next_handle
    }

    /// No class is registered twice, and the handles of the instances grow and
    /// lie below the next one.
    pub open spec fn valid(&self) -> bool {
        &&& forall|i: int, j: int|
            0 <= i < j < self.registered().len() ==> (#[trigger] self.registered()[i]).clsid@ != (
            #[trigger] self.registered()[j]).clsid@
        &&& forall|i: int, j: int|
            0 <= i < j < self.running().len() ==> (#[trigger] self.running()[i]).handle < (
            #[trigger] self.running()[j]).handle
        &&& forall|i: int|
            0 <= i < self.running().len() ==> 1 <= (#[trigger] self.running()[i]).handle
                < self.next()
        &&& 1 <= self.next()
    }

    /// A manager without effects.
    pub fn new() -> (manager: Self)
        ensures
            manager.valid(),
            manager.registered() == Seq::<RegisteredEffect>::empty(),
            manager.running() == Seq::<XapoInstance>::empty(),
            manager.next() == 1,
    {
        XapoManager { effects: Vec::new(), instances: Vec::new(), next_handle: 1 }
    }

    fn find_class(&self, clsid: &[u8; 16]) -> (place: usize)
        ensures
            place == place_of(self.registered(), clsid@, 0),
            place <= self.registered().len(),
            place < self.registered().len() ==> self.registered()[place as int].clsid@ == clsid@,
            forall|k: int| 0 <= k < place ==> (#[trigger] self.registered()[k]).clsid@ != clsid@,
    {
        let mut i: usize = 0;
        while i < self.effects.len()
            invariant
                i <= self.effects.len(),
                place_of(self.effects@, clsid@, 0) == place_of(self.effects@, clsid@, i as int),
                forall|k: int| 0 <= k < i ==> (#[trigger] self.effects@[k]).clsid@ != clsid@,
            decreases self.effects.len() - i,
        {
            if same_class(&self.effects[i].clsid, clsid) {
                return i;
            }
            i += 1;
        }
        i
    }

    fn find_instance(&self, handle: u64) -> (place: usize)
        ensures
            place == instance_place(self.running(), handle, 0),
            place <= self.running().len(),
            place < self.running().len() ==> self.running()[place as int].handle == handle,
    {
        let mut i: usize = 0;
        while i < self.instances.len()
            invariant
                i <= self.instances.len(),
                instance_place(self.instances@, handle, 0) == instance_place(
                    self.instances@,
                    handle,
                    i as int,
                ),
            decreases self.instances.len() - i,
        {
            if self.instances[i].handle == handle {
                return i;
            }
            i += 1;
        }
        i
    }

    /// Registers an effect, in place of one of the same class.
    pub fn register_effect(&mut self, clsid: [u8; 16], registration: XAPO_REGISTRATION_PROPERTIES)
        requires
            old(self).valid(),
        ensures
            final(self).valid(),
            final(self).registered() == with_effect(
                old(self).registered(),
                (RegisteredEffect { clsid, registration }),
            ),
            final(self).running() == old(self).running(),
            final(self).next() == old(self).next(),
    {
        let ghost before = *self;
        let place: usize = self.find_class(&clsid);
        let effect = RegisteredEffect { clsid, registration };
        if place < self.effects.len() {
            self.effects.set(place, effect);
        } else {
            self.effects.push(effect);
        }
        proof {
            let was = before.registered();
            let is = self.registered();
            assert forall|i: int, j: int| 0 <= i < j < is.len() implies (#[trigger] is[i]).clsid@
                != (#[trigger] is[j]).clsid@ by {
                if i < was.len() && j < was.len() {
                    assert(was[i].clsid@ != was[j].clsid@);
                }
                if i < place {
                    assert(was[i].clsid@ != clsid@);
                }
            }
            assert(self.running() == before.running());
        }
    }

    /// Notes a new effect of a registered class, with what the effect says of
    /// itself and the channels that it works on.
    pub fn create_instance(
        &mut self,
        clsid: &[u8; 16],
        registration: XAPO_REGISTRATION_PROPERTIES,
        channels: u16,
    ) -> (handle: Option<u64>)
        requires
            old(self).valid(),
            old(self).next() < u64::MAX,
        ensures
            final(self).valid(),
            final(self).registered() == old(self).registered(),
            ({
                let place = place_of(old(self).registered(), clsid@, 0);
                match handle {
                    None => place == old(self).registered().len() && final(self).running() == old(
                        self,
                    ).running() && final(self).next() == old(self).next(),
                    Some(made) => {
                        &&& 0 <= place < old(self).registered().len()
                        &&& made == old(self).next()
                        &&& final(self).next() == made + 1
                        &&& final(self).running() == old(self).running().push(
                            XapoInstance {
                                handle: made,
                                clsid: *clsid,
                                registration,
                                channels,
                            },
                        )
                    },
                }
            }),
    {
        let place: usize = self.find_class(clsid);
        if place >= self.effects.len() {
            return None;
        }
        let handle: u64 = self.next_handle;
        let instance = XapoInstance { handle, clsid: *clsid, registration, channels };
        let ghost before = *self;
        self.next_handle = handle + 1;
        self.instances.push(instance);
        proof {
            let was = before.running();
            let is = self.running();
            assert forall|i: int, j: int| 0 <= i < j < is.len() implies (#[trigger] is[i]).handle < (
            #[trigger] is[j]).handle by {
                assert(was[i].handle < before.next());
                if j < was.len() {
                    assert(was[i].handle < was[j].handle);
                }
            }
            assert forall|i: int| 0 <= i < is.len() implies 1 <= (#[trigger] is[i]).handle
                < self.next() by {
                if i < was.len() {
                    assert(1 <= was[i].handle < before.next());
                }
            }
            assert(self.registered() == before.registered());
        }
        Some(handle)
    }

    /// Whether there is an instance with this handle.
    pub fn has_instance(&self, handle: u64) -> (found: bool)
        ensures
            found == (instance_place(self.running(), handle, 0) < self.running().len()),
    {
        self.find_instance(handle) < self.instances.len()
    }

    /// Removes an instance; false where there is none.
    pub fn destroy_instance(&mut self, handle: u64) -> (removed: bool)
        requires
            old(self).valid(),
        ensures
            final(self).valid(),
            final(self).registered() == old(self).registered(),
            final(self).next() == old(self).next(),
            ({
                let place = instance_place(old(self).running(), handle, 0);
                &&& removed == (place < old(self).running().len())
                &&& final(self).running() == (if removed {
                    old(self).running().remove(place)
                } else {
                    old(self).running()
                })
            }),
    {
        let place: usize = self.find_instance(handle);
        if place >= self.instances.len() {
            return false;
        }
        let ghost before = *self;
        self.instances.remove(place);
        proof {
            let was = before.running();
            let is = self.running();
            assert forall|i: int, j: int| 0 <= i < j < is.len() implies (#[trigger] is[i]).handle < (
            #[trigger] is[j]).handle by {
                let k = if i < place {
                    i
                } else {
                    i + 1
                };
                let l = if j < place {
                    j
                } else {
                    j + 1
                };
                assert(was[k].handle < was[l].handle);
            }
            assert forall|i: int| 0 <= i < is.len() implies 1 <= (#[trigger] is[i]).handle
                < self.next() by {
                let k = if i < place {
                    i
                } else {
                    i + 1
                };
                assert(1 <= was[k].handle < before.next());
            }
            assert(self.registered() == before.registered());
        }
        true
    }

    /// What is registered of a class.
    pub fn registration_properties(&self, clsid: &[u8; 16]) -> (properties: Option<
        &XAPO_REGISTRATION_PROPERTIES,
    >)
        ensures
            ({
                let place = place_of(self.registered(), clsid@, 0);
                match properties {
                    Some(inner) => 0 <= place < self.registered().len() && *inner
                        == self.registered()[place].registration,
                    None => place == self.registered().len(),
                }
            }),
    {
        let place: usize = self.find_class(clsid);
        if place < self.effects.len() {
            Some(&self.effects[place].registration)
        } else {
            None
        }
    }

    /// What the effect of an instance says of itself.
    pub fn instance_registration(&self, handle: u64) -> (properties: Option<
        &XAPO_REGISTRATION_PROPERTIES,
    >)
        ensures
            ({
                let place = instance_place(self.running(), handle, 0);
                match properties {
                    Some(inner) => 0 <= place < self.running().len() && *inner
                        == self.running()[place].registration,
                    None => place == self.running().len(),
                }
            }),
    {
        let place: usize = self.find_instance(handle);
        if place < self.instances.len() {
            Some(&self.instances[place].registration)
        } else {
            None
        }
    }

    /// The channels that an instance works on.
    pub fn instance_channels(&self, handle: u64) -> (channels: Option<u16>)
        ensures
            ({
                let place = instance_place(self.running(), handle, 0);
                channels == (if place < self.running().len() {
                    Some(self.running()[place].channels)
                } else {
                    None
                })
            }),
    {
        let place: usize = self.find_instance(handle);
        if place < self.instances.len() {
            Some(self.instances[place].channels)
        } else {
            None
        }
    }

    /// Whether a class is registered.
    pub fn is_registered(&self, clsid: &[u8; 16]) -> (found: bool)
        ensures
            found == (place_of(self.registered(), clsid@, 0) < self.registered().len()),
    {
        self.find_class(clsid) < self.effects.len()
    }

    /// The number of registered effects.
    pub fn registered_count(&self) -> (count: usize)
        ensures
            count == self.registered().len(),
    {
        self.effects.len()
    }

    /// The number of instances.
    pub fn instance_count(&self) -> (count: usize)
        ensures
            count == self.running().len(),
    {
        self.instances.len()
    }

    /// The registered classes.
    pub fn registered_clsids(&self) -> (classes: Vec<[u8; 16]>)
        ensures
            classes@ == self.registered().map_values(|effect: RegisteredEffect| effect.clsid),
    {
        let ghost all = self.effects@.map_values(|effect: RegisteredEffect| effect.clsid);
        let mut classes: Vec<[u8; 16]> = Vec::new();
        let mut i: usize = 0;
        while i < self.effects.len()
            invariant
                i <= self.effects.len(),
                all == self.effects@.map_values(|effect: RegisteredEffect| effect.clsid),
                classes@ == all.take(i as int),
            decreases self.effects.len() - i,
        {
            classes.push(self.effects[i].clsid);
            assert(classes@ =~= all.take(i + 1));
            i += 1;
        }
        assert(all.take(i as int) =~= all);
        classes
    }

    /// Registers the effects that are built in.
    pub fn register_builtins(&mut self)
        requires
            old(self).valid(),
        ensures
            final(self).valid(),
            final(self).running() == old(self).running(),
            final(self).next() == old(self).next(),
            exists|builtins: Seq<RegisteredEffect>| #[trigger]
                are_builtins(builtins) && final(self).registered() == with_effects(
                    old(self).registered(),
                    builtins,
                    7,
                ),
    {
        let ghost start = self.registered();
        let ghost mut builtins = Seq::<RegisteredEffect>::empty();
        let mut k: usize = 0;
        while k < 7
            invariant
                k <= 7,
                self.valid(),
                start == old(self).registered(),
                self.running() == old(self).running(),
                self.next() == old(self).next(),
                builtins.len() == k,
                forall|i: int| 0 <= i < k ==> is_builtin(#[trigger] builtins[i], i),
                self.registered() == with_effects(start, builtins, k as int),
            decreases 7 - k,
        {
            let clsid: [u8; 16] = builtin_class(k as u8 + 1);
            let registration = XAPO_REGISTRATION_PROPERTIES::new(
                clsid,
                builtin_name(k),
                XAPO_FLAG_INPLACE,
            );
            let ghost effect = RegisteredEffect { clsid, registration };
            proof {
                lemma_with_effects_prefix(start, builtins, builtins.push(effect), k as int);
                builtins = builtins.push(effect);
            }
            self.register_effect(clsid, registration);
            k += 1;
        }
        assert(are_builtins(builtins));
    }
}

proof fn lemma_with_effects_prefix(
    effects: Seq<RegisteredEffect>,
    shorter: Seq<RegisteredEffect>,
    longer: Seq<RegisteredEffect>,
    count: int,
)
    requires
        0 <= count <= shorter.len() <= longer.len(),
        forall|i: int| 0 <= i < count ==> shorter[i] == #[trigger] longer[i],
    ensures
        with_effects(effects, shorter, count) == with_effects(effects, longer, count),
    decreases count,
{
    if count > 0 {
        lemma_with_effects_prefix(effects, shorter, longer, count - 1);
        assert(shorter[count - 1] == longer[count - 1]);
    }
}

/// The effects are the built-in ones.
pub open spec fn are_builtins(effects: Seq<RegisteredEffect>) -> bool {
    effects.len() == 7 && forall|i: int| 0 <= i < 7 ==> is_builtin(#[trigger] effects[i], i)
}

/// The name of a built-in effect.
pub open spec fn builtin_names() -> Seq<Seq<char>> {
    seq![
        "Schroeder Reverb"@,
        "One-Pole Low-Pass Filter"@,
        "One-Pole High-Pass Filter"@,
        "Echo / Delay"@,
        "Dynamic Range Compressor"@,
        "Normalize to Peak"@,
        "Parametric 4-Band Equalizer"@,
    ]
}

/// The effect is the built-in one at `index`: its class begins and ends with
/// its number, counted from one, and is zero between.
pub open spec fn is_builtin(effect: RegisteredEffect, index: int) -> bool {
    &&& effect.clsid@ == Seq::new(
        16,
        |i: int|
            if i == 0 || i == 15 {
                (index + 1) as u8
            } else {
                0u8
            },
    )
    &&& is_first_version(
        effect.registration,
        effect.clsid,
        builtin_names()[index],
        XAPO_FLAG_INPLACE,
    )
}

fn builtin_class(number: u8) -> (clsid: [u8; 16])
    ensures
        clsid@ == Seq::new(
            16,
            |i: int|
                if i == 0 || i == 15 {
                    number
                } else {
                    0u8
                },
        ),
{
    let clsid: [u8; 16] = [number, 0, 0, 0, 0, 0, 0, 0, 0, 0, 0, 0, 0, 0, 0, number];
    assert(clsid@ =~= Seq::new(
        16,
        |i: int|
            if i == 0 || i == 15 {
                number
            } else {
                0u8
            },
    ));
    clsid
}

fn builtin_name(index: usize) -> (name: &'static str)
    requires
        index < 7,
    ensures
        name@ == builtin_names()[index as int],
{
    match index {
        0 => "Schroeder Reverb",
        1 => "One-Pole Low-Pass Filter",
        2 => "One-Pole High-Pass Filter",
        3 => "Echo / Delay",
        4 => "Dynamic Range Compressor",
        5 => "Normalize to Peak",
        _ => "Parametric 4-Band Equalizer",
    }
}

impl Default for XapoManager {
    fn default() -> (manager: Self)
        ensures
            manager.valid(),
            manager.registered() == Seq::<RegisteredEffect>::empty(),
            manager.running() == Seq::<XapoInstance>::empty(),
            manager.next() == 1,
    {
        XapoManager::new()
    }
}

/// A class is found at the first place that holds it; one that no place holds
/// is sought to the end.
pub proof fn lemma_place_of(effects: Seq<RegisteredEffect>, clsid: Seq<u8>)
    ensures
        ({
            let place = place_of(effects, clsid, 0);
            &&& 0 <= place <= effects.len()
            &&& place < effects.len() ==> effects[place].clsid@ == clsid
            &&& forall|i: int| 0 <= i < place ==> (#[trigger] effects[i]).clsid@ != clsid
        }),
{
    lemma_place_from(effects, clsid, 0);
}

proof fn lemma_place_from(effects: Seq<RegisteredEffect>, clsid: Seq<u8>, from: int)
    requires
        0 <= from <= effects.len(),
    ensures
        ({
            let place = place_of(effects, clsid, from);
            &&& from <= place <= effects.len()
            &&& place < effects.len() ==> effects[place].clsid@ == clsid
            &&& forall|i: int| from <= i < place ==> (#[trigger] effects[i]).clsid@ != clsid
        }),
    decreases effects.len() - from,
{
    if from < effects.len() && effects[from].clsid@ != clsid {
        lemma_place_from(effects, clsid, from + 1);
    }
}

/// An effect that was registered is found by its class, in the place of the one
/// that had the class before or else behind all others; every other class is
/// found as before. Registering it once more changes nothing.
pub proof fn lemma_registered_is_found(
    effects: Seq<RegisteredEffect>,
    effect: RegisteredEffect,
    other: Seq<u8>,
)
    ensures
        ({
            let after = with_effect(effects, effect);
            let place = place_of(after, effect.clsid@, 0);
            &&& 0 <= place < after.len()
            &&& after[place] == effect
            &&& after.len() == effects.len() || after.len() == effects.len() + 1 && place
                == effects.len()
            &&& other != effect.clsid@ ==> {
                let before = place_of(effects, other, 0);
                let now = place_of(after, other, 0);
                &&& before < effects.len() <==> now < after.len()
                &&& before < effects.len() ==> now == before && after[now] == effects[before]
            }
            &&& with_effect(after, effect) == after
        }),
{
    let after = with_effect(effects, effect);
    lemma_place_of(effects, effect.clsid@);
    lemma_place_of(after, effect.clsid@);
    lemma_place_of(effects, other);
    lemma_place_of(after, other);
    let old_place = place_of(effects, effect.clsid@, 0);
    let place = place_of(after, effect.clsid@, 0);
    assert(after[old_place] == effect);
    assert(place <= old_place);
    if place < old_place {
        assert(after[place] == effects[place]);
    }
    assert(after.update(place, effect) =~= after);
    if other != effect.clsid@ {
        let before = place_of(effects, other, 0);
        let now = place_of(after, other, 0);
        if before < effects.len() {
            assert(after[before] == effects[before]);
            if now < before {
                assert(now != old_place);
                assert(after[now] == effects[now]);
            }
        } else if now < after.len() {
            if now < effects.len() && now != old_place {
                assert(after[now] == effects[now]);
            }
        }
    }
}

/// An instance is found at the place that holds its handle. One that was taken
/// out of instances with rising handles is found no more, and all others are.
pub proof fn lemma_instance_place(instances: Seq<XapoInstance>, handle: u64, other: u64)
    requires
        forall|i: int, j: int|
            0 <= i < j < instances.len() ==> (#[trigger] instances[i]).handle < (
            #[trigger] instances[j]).handle,
    ensures
        ({
            let place = instance_place(instances, handle, 0);
            &&& 0 <= place <= instances.len()
            &&& place < instances.len() ==> instances[place].handle == handle
            &&& place == instances.len() ==> forall|i: int|
                0 <= i < instances.len() ==> (#[trigger] instances[i]).handle != handle
            &&& place < instances.len() ==> {
                let after = instances.remove(place);
                &&& instance_place(after, handle, 0) == after.len()
                &&& other != handle ==> (instance_place(after, other, 0) < after.len()
                    <==> instance_place(instances, other, 0) < instances.len())
            }
        }),
{
    lemma_instance_from(instances, handle, 0);
    lemma_instance_from(instances, other, 0);
    let place = instance_place(instances, handle, 0);
    if place < instances.len() {
        let after = instances.remove(place);
        lemma_instance_from(after, handle, 0);
        lemma_instance_from(after, other, 0);
        assert forall|i: int| 0 <= i < after.len() implies #[trigger] after[i] == (if i < place {
            instances[i]
        } else {
            instances[i + 1]
        }) by {}
        let again = instance_place(after, handle, 0);
        if again < after.len() {
            if again < place {
                assert(instances[again].handle < instances[place].handle);
            } else {
                assert(instances[place].handle < instances[again + 1].handle);
            }
        }
        if other != handle {
            let before = instance_place(instances, other, 0);
            if before < instances.len() {
                assert(after[if before < place {
                    before
                } else {
                    before - 1
                }] == instances[before]);
            }
        }
    }
}

proof fn lemma_instance_from(instances: Seq<XapoInstance>, handle: u64, from: int)
    requires
        0 <= from <= instances.len(),
    ensures
        ({
            let place = instance_place(instances, handle, from);
            &&& from <= place <= instances.len()
            &&& place < instances.len() ==> instances[place].handle == handle
            &&& forall|i: int| from <= i < place ==> (#[trigger] instances[i]).handle != handle
        }),
    decreases instances.len() - from,
{
    if from < instances.len() && instances[from].handle != handle {
        lemma_instance_from(instances, handle, from + 1);
    }
}

/// A name of fewer than 256 units is kept whole, ends with a zero, and reads
/// back; of a longer one the first 255 units are kept.
pub proof fn lemma_name_units(name: Seq<char>)
    ensures
        name_units(name).len() == 256,
        name_units(name)[255] == 0,
        encoded(name).len() <= 255 ==> decoded(name_units(name).take(encoded(name).len() as int))
            == Some(name) && forall|i: int|
            encoded(name).len() <= i < 256 ==> #[trigger] name_units(name)[i] == 0,
        encoded(name).len() > 255 ==> name_units(name).take(255) == encoded(name).take(255),
{
    let units = encoded(name);
    if units.len() <= 255 {
        assert(name_units(name).take(units.len() as int) =~= units);
        lemma_decoded_encoded(name);
    } else {
        assert(name_units(name).take(255) =~= units.take(255));
    }
}

/// The effects that come with the library are of different classes, and after
/// all were registered each is found by its own.
pub proof fn lemma_builtins_found(
    effects: Seq<RegisteredEffect>,
    builtins: Seq<RegisteredEffect>,
    i: int,
    j: int,
)
    requires
        are_builtins(builtins),
        0 <= i < 7,
        0 <= j < 7,
    ensures
        i != j ==> builtins[i].clsid@ != builtins[j].clsid@,
        builtins[i].registration.clsid@ == builtins[i].clsid@,
        ({
            let all = with_effects(effects, builtins, 7);
            let place = place_of(all, builtins[i].clsid@, 0);
            &&& 0 <= place < all.len()
            &&& all[place] == builtins[i]
        }),
{
    lemma_builtins_apart(builtins, i, j);
    lemma_builtin_stays(effects, builtins, i, 7);
}

proof fn lemma_builtins_apart(builtins: Seq<RegisteredEffect>, i: int, j: int)
    requires
        are_builtins(builtins),
        0 <= i < 7,
        0 <= j < 7,
    ensures
        i != j ==> builtins[i].clsid@ != builtins[j].clsid@,
{
    assert(is_builtin(builtins[i], i));
    assert(is_builtin(builtins[j], j));
    assert(builtins[i].clsid@[0] == i + 1);
    assert(builtins[j].clsid@[0] == j + 1);
}

proof fn lemma_builtin_stays(
    effects: Seq<RegisteredEffect>,
    builtins: Seq<RegisteredEffect>,
    i: int,
    count: int,
)
    requires
        are_builtins(builtins),
        0 <= i < count <= 7,
    ensures
        ({
            let all = with_effects(effects, builtins, count);
            let place = place_of(all, builtins[i].clsid@, 0);
            &&& 0 <= place < all.len()
            &&& all[place] == builtins[i]
        }),
    decreases count,
{
    let before = with_effects(effects, builtins, count - 1);
    if i < count - 1 {
        lemma_builtin_stays(effects, builtins, i, count - 1);
        lemma_builtins_apart(builtins, i, count - 1);
        lemma_registered_is_found(before, builtins[count - 1], builtins[i].clsid@);
    } else {
        lemma_registered_is_found(before, builtins[i], builtins[i].clsid@);
    }
}

} // verus!
