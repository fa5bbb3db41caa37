//! The output devices, and what is open on them.
use crate::audio::timing::{
    duration_ms, latency_ms, lemma_limited_ms, limited_ms, measure_latency_ms, rounded_ms,
};
use crate::error::{AppError, AppResult, ReasonCode};
use crate::order::{
    ascending, lemma_filtered, lemma_precedes_total, lemma_sorted_once, place, placed, precedes, sorted_once,
};
use crate::text::{decimal, noted, push_decimal, push_text, push_wide_decimal, same_text};
use vstd::prelude::*;

verus! {

// ---------------------------------------------------------------------------
// Types
// ---------------------------------------------------------------------------

/// How the samples of a stream are stored.
#[derive(Debug, Clone, Copy, PartialEq, Eq, Structural)]
pub enum SampleFormat {
    Pcm16,
    Float32,
}

/// The format of a stream.
#[derive(Debug, Clone, Copy, PartialEq, Eq, Structural)]
pub struct WaveFormat {
    pub channels: u16,
    pub sample_rate: u32,
    pub sample_format: SampleFormat,
}

/// A client that has a device for itself.
#[derive(Debug, Clone, Copy, PartialEq, Eq, Structural)]
pub struct WasapiExclusiveState {
    /// The device of the client.
    pub device_id: u64,
    /// The size of the buffer in frames.
    pub buffer_frames: usize,
    /// What the buffer lasts, in milliseconds.
    pub period_ms: u32,
    /// The format of the stream.
    pub format: WaveFormat,
}

/// A device as the host lists it.
#[derive(Debug, Clone, PartialEq, Eq)]
pub struct HostDevice {
    pub name: String,
    pub channels: u16,
    pub sample_rate: u32,
    pub is_default: bool,
}

/// The model of [`HostDevice`].
#[verifier::ext_equal]
pub struct HostDeviceModel {
    pub name: Seq<char>,
    pub channels: u16,
    pub sample_rate: u32,
    pub is_default: bool,
}

impl DeepView for HostDevice {
    type V = HostDeviceModel;

    open spec fn deep_view(&self) -> HostDeviceModel {
        HostDeviceModel {
            name: self.name@,
            channels: self.channels,
            sample_rate: self.sample_rate,
            is_default: self.is_default,
        }
    }
}

/// An output device.
#[derive(Debug, Clone, PartialEq, Eq)]
pub struct RealAudioDevice {
    pub id: u64,
    pub name: String,
    pub channels: u16,
    pub sample_rate: u32,
    pub is_default: bool,
}

/// The model of [`RealAudioDevice`].
#[verifier::ext_equal]
pub struct RealAudioDeviceModel {
    pub id: u64,
    pub name: Seq<char>,
    pub channels: u16,
    pub sample_rate: u32,
    pub is_default: bool,
}

impl DeepView for RealAudioDevice {
    type V = RealAudioDeviceModel;

    open spec fn deep_view(&self) -> RealAudioDeviceModel {
        RealAudioDeviceModel {
            id: self.id,
            name: self.name@,
            channels: self.channels,
            sample_rate: self.sample_rate,
            is_default: self.is_default,
        }
    }
}

impl RealAudioDevice {
    fn duplicate(&self) -> (copy: Self)
        ensures
            copy.deep_view() == self.deep_view(),
    {
        RealAudioDevice {
            id: self.id,
            name: self.name.clone(),
            channels: self.channels,
            sample_rate: self.sample_rate,
            is_default: self.is_default,
        }
    }
}

/// What is told of a device.
#[derive(Debug, Clone, PartialEq, Eq)]
pub struct AudioDeviceInfo {
    pub id: u64,
    pub name: String,
    pub channels: u16,
    pub sample_rate: u32,
    pub is_default: bool,
}

impl DeepView for AudioDeviceInfo {
    type V = RealAudioDeviceModel;

    open spec fn deep_view(&self) -> RealAudioDeviceModel {
        RealAudioDeviceModel {
            id: self.id,
            name: self.name@,
            channels: self.channels,
            sample_rate: self.sample_rate,
            is_default: self.is_default,
        }
    }
}

/// A latency that was measured.
#[derive(Debug, Clone, PartialEq, Eq)]
pub struct LatencyRecord {
    pub subsystem: String,
    pub device_id: u64,
    pub measured_ms: u32,
}

/// The model of [`LatencyRecord`].
#[verifier::ext_equal]
pub struct LatencyRecordModel {
    pub subsystem: Seq<char>,
    pub device_id: u64,
    pub measured_ms: u32,
}

impl DeepView for LatencyRecord {
    type V = LatencyRecordModel;

    open spec fn deep_view(&self) -> LatencyRecordModel {
        LatencyRecordModel {
            subsystem: self.subsystem@,
            device_id: self.device_id,
            measured_ms: self.measured_ms,
        }
    }
}

// ---------------------------------------------------------------------------
// Looking for devices
// ---------------------------------------------------------------------------

/// The device that the host lists, under a number.
pub open spec fn numbered(device: HostDeviceModel, id: u64) -> RealAudioDeviceModel {
    RealAudioDeviceModel {
        id,
        name: device.name,
        channels: device.channels,
        sample_rate: device.sample_rate,
        is_default: device.is_default,
    }
}

/// The first of the devices from `from` on that is the default.
pub open spec fn default_from(devices: Seq<RealAudioDeviceModel>, from: int) -> Option<u64>
    decreases devices.len() - from,
{
    if from < 0 || from >= devices.len() {
        None
    } else if devices[from].is_default {
        Some(devices[from].id)
    } else {
        default_from(devices, from + 1)
    }
}

/// The first of the devices from `from` on with the given number.
pub open spec fn device_from(devices: Seq<RealAudioDeviceModel>, id: u64, from: int) -> Option<
    RealAudioDeviceModel,
>
    decreases devices.len() - from,
{
    if from < 0 || from >= devices.len() {
        None
    } else if devices[from].id == id {
        Some(devices[from])
    } else {
        device_from(devices, id, from + 1)
    }
}

/// One of the devices has this name.
pub open spec fn has_name(devices: Seq<RealAudioDeviceModel>, name: Seq<char>) -> bool {
    exists|i: int| 0 <= i < devices.len() && (#[trigger] devices[i]).name == name
}

/// The names of the listed devices.
pub open spec fn names_of(listing: Seq<HostDeviceModel>) -> Seq<Seq<char>> {
    listing.map_values(|device: HostDeviceModel| device.name)
}

/// The last of the first `count` listed devices with this name.
pub open spec fn last_named(listing: Seq<HostDeviceModel>, name: Seq<char>, count: int) -> HostDeviceModel
    decreases count,
{
    if count <= 1 || listing[count - 1].name == name {
        listing[count - 1]
    } else {
        last_named(listing, name, count - 1)
    }
}

/// The names in the list, in order and each once, that no device has.
pub open spec fn new_names(
    devices: Seq<RealAudioDeviceModel>,
    listing: Seq<HostDeviceModel>,
) -> Seq<Seq<char>> {
    sorted_once(names_of(listing)).filter(|name: Seq<char>| !has_name(devices, name))
}

/// The devices that are new in the list, numbered from `next` on.
pub open spec fn added_devices(
    devices: Seq<RealAudioDeviceModel>,
    listing: Seq<HostDeviceModel>,
    next: u64,
) -> Seq<RealAudioDeviceModel> {
    let names = new_names(devices, listing);
    Seq::new(
        names.len(),
        |i: int| numbered(last_named(listing, names[i], listing.len() as int), (next + i) as u64),
    )
}

/// The devices that are in the list.
pub open spec fn still_listed(
    devices: Seq<RealAudioDeviceModel>,
    listing: Seq<HostDeviceModel>,
) -> Seq<RealAudioDeviceModel> {
    devices.filter(|device: RealAudioDeviceModel| names_of(listing).contains(device.name))
}

/// The numbers of the devices that are not in the list.
pub open spec fn no_longer_listed(
    devices: Seq<RealAudioDeviceModel>,
    listing: Seq<HostDeviceModel>,
) -> Seq<u64> {
    devices.filter(
        |device: RealAudioDeviceModel| !names_of(listing).contains(device.name),
    ).map_values(|device: RealAudioDeviceModel| device.id)
}

fn is_named(devices: &Vec<RealAudioDevice>, count: usize, name: &str) -> (found: bool)
    requires
        count <= devices.len(),
    ensures
        found == has_name(devices.deep_view().take(count as int), name@),
{
    let ghost all = devices.deep_view().take(count as int);
    let mut i: usize = 0;
    while i < count
        invariant
            i <= count <= devices.len(),
            all == devices.deep_view().take(count as int),
            forall|k: int| 0 <= k < i ==> (#[trigger] all[k]).name != name@,
        decreases count - i,
    {
        assert(all[i as int] == devices@[i as int].deep_view());
        if same_text(&devices[i].name, name) {
            return true;
        }
        i += 1;
    }
    false
}

fn is_listed(listing: &Vec<HostDevice>, name: &str) -> (found: bool)
    ensures
        found == names_of(listing.deep_view()).contains(name@),
{
    let ghost all = names_of(listing.deep_view());
    let mut i: usize = 0;
    while i < listing.len()
        invariant
            i <= listing.len(),
            all == names_of(listing.deep_view()),
            forall|k: int| 0 <= k < i ==> #[trigger] all[k] != name@,
        decreases listing.len() - i,
    {
        assert(all[i as int] == listing@[i as int].name@);
        if same_text(&listing[i].name, name) {
            assert(all.contains(name@));
            return true;
        }
        i += 1;
    }
    false
}

fn find_last_named(listing: &Vec<HostDevice>, name: &str) -> (place: usize)
    requires
        listing.len() > 0,
    ensures
        place < listing.len(),
        listing@[place as int].deep_view() == last_named(
            listing.deep_view(),
            name@,
            listing.len() as int,
        ),
{
    let ghost all = listing.deep_view();
    let mut left: usize = listing.len();
    while left > 1 && !same_text(&listing[left - 1].name, name)
        invariant
            1 <= left <= listing.len(),
            all == listing.deep_view(),
            last_named(all, name@, listing.len() as int) == last_named(all, name@, left as int),
        decreases left,
    {
        assert(all[left - 1] == listing@[left - 1].deep_view());
        left -= 1;
    }
    assert(all[left - 1] == listing@[left - 1].deep_view());
    left - 1
}

fn sorted_names(listing: &Vec<HostDevice>) -> (names: Vec<String>)
    ensures
        names.deep_view() == sorted_once(names_of(listing.deep_view())),
{
    let ghost all = names_of(listing.deep_view());
    let mut names: Vec<String> = Vec::new();
    let mut i: usize = 0;
    assert(names.deep_view() =~= Seq::<Seq<char>>::empty());
    while i < listing.len()
        invariant
            i <= listing.len(),
            all == names_of(listing.deep_view()),
            names.deep_view() == sorted_once(all.take(i as int)),
        decreases listing.len() - i,
    {
        place(&mut names, listing[i].name.clone());
        assert(all.take(i + 1).last() == listing@[i as int].name@);
        assert(all.take(i + 1).drop_last() =~= all.take(i as int));
        i += 1;
    }
    assert(all.take(i as int) =~= all);
    names
}

fn has_number(list: &Vec<u64>, number: u64) -> (found: bool)
    ensures
        found == list@.contains(number),
{
    let mut i: usize = 0;
    while i < list.len()
        invariant
            i <= list.len(),
            forall|k: int| 0 <= k < i ==> list@[k] != number,
        decreases list.len() - i,
    {
        if list[i] == number {
            assert(list@.contains(number));
            return true;
        }
        i += 1;
    }
    false
}

proof fn lemma_placed_is_shorter(texts: Seq<Seq<char>>, text: Seq<char>)
    ensures
        crate::order::placed(texts, text).len() <= texts.len() + 1,
    decreases texts.len(),
{
    if texts.len() > 0 {
        lemma_placed_is_shorter(texts.drop_last(), text);
    }
}

proof fn lemma_sorted_once_is_shorter(texts: Seq<Seq<char>>)
    ensures
        sorted_once(texts).len() <= texts.len(),
    decreases texts.len(),
{
    if texts.len() > 0 {
        lemma_sorted_once_is_shorter(texts.drop_last());
        lemma_placed_is_shorter(sorted_once(texts.drop_last()), texts.last());
    }
}

/// How the samples of a client differ from what its buffer holds.
pub open spec fn mismatch_text(frames: int, expected: int, heard: int, samples: int) -> Seq<char> {
    "exclusive-mode buffer size mismatch: expected "@ + decimal(frames as nat) + " frames ("@
        + decimal(expected as nat) + " samples), got "@ + decimal(heard as nat) + " frames ("@
        + decimal(samples as nat) + " samples)"@
}

fn mismatch(frames: usize, expected: u128, channels: usize, samples: usize) -> (message: String)
    ensures
        message@ == mismatch_text(
            frames as int,
            expected as int,
            if channels > 0 {
                samples as int / channels as int
            } else {
                0
            },
            samples as int,
        ),
{
    let heard: usize = if channels > 0 {
        samples / channels
    } else {
        0
    };
    let mut message: String = noted(
        "exclusive-mode buffer size mismatch: expected ",
        frames as u64,
        " frames (",
    );
    push_wide_decimal(&mut message, expected);
    push_text(&mut message, " samples), got ");
    push_decimal(&mut message, heard as u64);
    push_text(&mut message, " frames (");
    push_decimal(&mut message, samples as u64);
    push_text(&mut message, " samples)");
    message
}

/// The refusal of a request for sound.
fn refused<T>(code: ReasonCode, message: &str) -> (outcome: AppResult<T>)
    ensures
        outcome matches Err(error) && error.code == code && error.message@ == message@,
{
    Err(AppError::new(code, message))
}

// ---------------------------------------------------------------------------
// The backend
// ---------------------------------------------------------------------------

/// A client and what it has.
pub type Client = (u64, WasapiExclusiveState);

/// The output devices, the streams that are open on them, the clients that
/// have a device for themselves, and the latencies that were measured.
pub struct RealAudioBackend {
    devices: Vec<RealAudioDevice>,
    next_device_id: u64,
    streams: Vec<u64>,
    latency_log: Vec<LatencyRecord>,
    exclusive_clients: Vec<Client>,
    next_audio_client_id: u64,
}

/// The model of [`RealAudioBackend`].
#[verifier::ext_equal]
pub struct BackendModel {
    /// The devices, by number.
    pub devices: Seq<RealAudioDeviceModel>,
    /// The number of the next device.
    pub next_device: u64,
    /// The devices that have a stream.
    pub streams: Seq<u64>,
    /// The latencies that were measured.
    pub latencies: Seq<LatencyRecordModel>,
    /// The clients that have a device for themselves.
    pub clients: Seq<Client>,
    /// The number of the next client.
    pub next_client: u64,
}

impl View for RealAudioBackend {
    type V = BackendModel;

    closed spec fn view(&self) -> BackendModel {
        BackendModel {
            devices: self.devices.deep_view(),
            next_device: self.next_device_id,
            streams: self.streams@,
            latencies: self.latency_log.deep_view(),
            clients: self.exclusive_clients@,
            next_client: self.next_audio_client_id,
        }
    }
}

impl BackendModel {
    /// The numbers of the devices and of the clients grow, and lie below the
    /// next ones.
    pub open spec fn valid(self) -> bool {
        &&& growing(
            self.devices,
            |device: RealAudioDeviceModel| device.id,
            self.next_device,
        )
        &&& growing(self.clients, |client: Client| client.0, self.next_client)
    }

    /// The device with the given number.
    pub open spec fn device(self, id: u64) -> Option<RealAudioDeviceModel> {
        device_from(self.devices, id, 0)
    }

    /// One more latency.
    pub open spec fn measured(self, subsystem: Seq<char>, device_id: u64, measured: int) -> Self {
        BackendModel {
            latencies: self.latencies.push(
                LatencyRecordModel { subsystem, device_id, measured_ms: measured as u32 },
            ),
            ..self
        }
    }
}

/// The numbers of the items grow, and lie below `next`.
pub open spec fn growing<A>(items: Seq<A>, number: spec_fn(A) -> u64, next: u64) -> bool {
    &&& forall|i: int, j: int|
        0 <= i < j < items.len() ==> number(#[trigger] items[i]) < number(#[trigger] items[j])
    &&& forall|i: int| 0 <= i < items.len() ==> number(#[trigger] items[i]) < next
}

/// The first of the clients from `from` on that has the device.
pub open spec fn client_on(clients: Seq<Client>, device_id: u64, from: int) -> Option<
    WasapiExclusiveState,
>
    decreases clients.len() - from,
{
    if from < 0 || from >= clients.len() {
        None
    } else if clients[from].1.device_id == device_id {
        Some(clients[from].1)
    } else {
        client_on(clients, device_id, from + 1)
    }
}

/// The first of the clients from `from` on with the given number.
pub open spec fn client_from(clients: Seq<Client>, id: u64, from: int) -> Option<
    WasapiExclusiveState,
>
    decreases clients.len() - from,
{
    if from < 0 || from >= clients.len() {
        None
    } else if clients[from].0 == id {
        Some(clients[from].1)
    } else {
        client_from(clients, id, from + 1)
    }
}

/// What a buffer lasts, in milliseconds: at least one, and ten where the rate
/// is not known.
pub open spec fn period_of(buffer_frames: int, rate: int) -> int {
    if rate == 0 {
        10
    } else if limited_ms(buffer_frames, rate, u32::MAX as int) < 1 {
        1
    } else {
        limited_ms(buffer_frames, rate, u32::MAX as int)
    }
}

impl RealAudioBackend {
    /// A backend with the devices that the host lists, numbered from one on.
    pub fn new(listing: Vec<HostDevice>) -> (backend: Self)
        requires
            listing@.len() < u64::MAX,
        ensures
            backend@.valid(),
            backend@ == (BackendModel {
                devices: Seq::new(
                    listing@.len(),
                    |i: int| numbered(listing.deep_view()[i], (i + 1) as u64),
                ),
                next_device: (listing@.len() + 1) as u64,
                streams: Seq::empty(),
                latencies: Seq::empty(),
                clients: Seq::empty(),
                next_client: 1,
            }),
    {
        let ghost all = Seq::new(
            listing@.len(),
            |i: int| numbered(listing.deep_view()[i], (i + 1) as u64),
        );
        let mut devices: Vec<RealAudioDevice> = Vec::new();
        let mut next: u64 = 1;
        let mut i: usize = 0;
        assert(devices.deep_view() =~= all.take(0));
        while i < listing.len()
            invariant
                i <= listing.len(),
                listing@.len() < u64::MAX,
                all == Seq::new(
                    listing@.len(),
                    |k: int| numbered(listing.deep_view()[k], (k + 1) as u64),
                ),
                next == i + 1,
                devices.deep_view() == all.take(i as int),
            decreases listing.len() - i,
        {
            let device = RealAudioDevice {
                id: next,
                name: listing[i].name.clone(),
                channels: listing[i].channels,
                sample_rate: listing[i].sample_rate,
                is_default: listing[i].is_default,
            };
            let ghost before = devices.deep_view();
            devices.push(device);
            assert(devices.deep_view() =~= before.push(device.deep_view()));
            assert(devices.deep_view() =~= all.take(i + 1));
            next = next + 1;
            i += 1;
        }
        assert(all.take(i as int) =~= all);
        let backend = RealAudioBackend {
            devices,
            next_device_id: next,
            streams: Vec::new(),
            latency_log: Vec::new(),
            exclusive_clients: Vec::new(),
            next_audio_client_id: 1,
        };
        assert(backend@.latencies =~= Seq::<LatencyRecordModel>::empty());
        backend
    }

    /// What is told of the devices.
    pub fn enumerate_devices(&self) -> (infos: Vec<AudioDeviceInfo>)
        ensures
            infos.deep_view() == self@.devices,
    {
        let ghost all = self.devices.deep_view();
        let mut infos: Vec<AudioDeviceInfo> = Vec::new();
        let mut i: usize = 0;
        assert(infos.deep_view() =~= all.take(0));
        while i < self.devices.len()
            invariant
                i <= self.devices.len(),
                all == self.devices.deep_view(),
                infos.deep_view() == all.take(i as int),
            decreases self.devices.len() - i,
        {
            let device: &RealAudioDevice = &self.devices[i];
            let info = AudioDeviceInfo {
                id: device.id,
                name: device.name.clone(),
                channels: device.channels,
                sample_rate: device.sample_rate,
                is_default: device.is_default,
            };
            let ghost before = infos.deep_view();
            infos.push(info);
            assert(infos.deep_view() =~= before.push(info.deep_view()));
            assert(infos.deep_view() =~= all.take(i + 1));
            i += 1;
        }
        assert(all.take(i as int) =~= all);
        infos
    }

    /// The default device.
    pub fn default_device_id(&self) -> (outcome: AppResult<u64>)
        ensures
            match outcome {
                Ok(id) => default_from(self@.devices, 0) == Some(id),
                Err(error) => default_from(self@.devices, 0) is None && error.code
                    == ReasonCode::RcAudioUnsupported,
            },
    {
        let ghost all = self@.devices;
        let mut i: usize = 0;
        while i < self.devices.len()
            invariant
                i <= self.devices.len(),
                all == self@.devices,
                default_from(all, 0) == default_from(all, i as int),
            decreases self.devices.len() - i,
        {
            assert(all[i as int] == self.devices@[i as int].deep_view());
            if self.devices[i].is_default {
                return Ok(self.devices[i].id);
            }
            i += 1;
        }
        refused(ReasonCode::RcAudioUnsupported, "no default audio output device available")
    }

    /// The device with the given number.
    pub fn device_info(&self, device_id: u64) -> (outcome: AppResult<&RealAudioDevice>)
        ensures
            match outcome {
                Ok(device) => self@.device(device_id) == Some(device.deep_view()),
                Err(error) => self@.device(device_id) is None && error.code
                    == ReasonCode::RcAudioUnsupported,
            },
    {
        let ghost all = self@.devices;
        let mut i: usize = 0;
        while i < self.devices.len()
            invariant
                i <= self.devices.len(),
                all == self@.devices,
                device_from(all, device_id, 0) == device_from(all, device_id, i as int),
            decreases self.devices.len() - i,
        {
            assert(all[i as int] == self.devices@[i as int].deep_view());
            if self.devices[i].id == device_id {
                return Ok(&self.devices[i]);
            }
            i += 1;
        }
        refused(
            ReasonCode::RcAudioUnsupported,
            &noted("unknown audio device ", device_id, ""),
        )
    }

    /// Whether the device has a stream.
    pub fn stream_is_open(&self, device_id: u64) -> (open: bool)
        ensures
            open == self@.streams.contains(device_id),
    {
        has_number(&self.streams, device_id)
    }

    fn log_latency(&mut self, subsystem: &str, device_id: u64, measured_ms: u32)
        ensures
            final(self)@ == old(self)@.measured(subsystem@, device_id, measured_ms as int),
    {
        let ghost before = self@;
        let record = LatencyRecord { subsystem: subsystem.to_owned(), device_id, measured_ms };
        self.latency_log.push(record);
        assert(self@.latencies =~= before.latencies.push(record.deep_view()));
    }

    /// Notes that a stream was opened on a device that had none. A buffer
    /// without a fixed size counts as 1024 frames.
    pub fn stream_opened(&mut self, device_id: u64, format: &WaveFormat, buffer_frames: Option<u32>)
        ensures
            ({
                let frames = match buffer_frames {
                    Some(fixed) => fixed as int,
                    None => 1024,
                };
                let noted = old(self)@.measured(
                    "real_audio"@,
                    device_id,
                    latency_ms(frames, format.sample_rate as int),
                );
                final(self)@ == BackendModel { streams: noted.streams.push(device_id), ..noted }
            }),
    {
        let frames: usize = match buffer_frames {
            Some(fixed) => fixed as usize,
            None => 1024,
        };
        let latency: u32 = measure_latency_ms(format.sample_rate, frames);
        self.log_latency("real_audio", device_id, latency);
        self.streams.push(device_id);
    }

    /// Notes that a client shares the stream of a device.
    pub fn wasapi_client_opened(
        &mut self,
        device_id: u64,
        format: &WaveFormat,
        buffer_frames: usize,
    )
        ensures
            final(self)@ == old(self)@.measured(
                "wasapi"@,
                device_id,
                latency_ms(buffer_frames as int, format.sample_rate as int),
            ),
    {
        let latency: u32 = measure_latency_ms(format.sample_rate, buffer_frames);
        self.log_latency("wasapi", device_id, latency);
    }

    /// The size of the buffer of a device that already has a stream: that of a
    /// client that has the device for itself, else 256 frames.
    pub fn open_buffer_frames(&self, device_id: u64) -> (frames: Option<usize>)
        ensures
            frames == (if self@.streams.contains(device_id) {
                Some(
                    match client_on(self@.clients, device_id, 0) {
                        Some(state) => state.buffer_frames,
                        None => 256,
                    },
                )
            } else {
                None
            }),
    {
        if !self.stream_is_open(device_id) {
            return None;
        }
        let ghost all = self.exclusive_clients@;
        let mut i: usize = 0;
        while i < self.exclusive_clients.len()
            invariant
                i <= self.exclusive_clients.len(),
                all == self.exclusive_clients@,
                client_on(all, device_id, 0) == client_on(all, device_id, i as int),
                self@.streams.contains(device_id),
            decreases self.exclusive_clients.len() - i,
        {
            if self.exclusive_clients[i].1.device_id == device_id {
                return Some(self.exclusive_clients[i].1.buffer_frames);
            }
            i += 1;
        }
        Some(256)
    }

    /// Notes that a stream was opened for a client that has the device for
    /// itself.
    pub fn exclusive_stream_opened(&mut self, device_id: u64)
        ensures
            final(self)@ == (BackendModel {
                streams: old(self)@.streams.push(device_id),
                ..old(self)@
            }),
    {
        self.streams.push(device_id);
    }

    /// Gives a client a device for itself. The buffer is the one that was
    /// agreed on with the hardware.
    pub fn open_wasapi_client_exclusive(
        &mut self,
        device_id: u64,
        format: WaveFormat,
        buffer_frames: usize,
    ) -> (outcome: AppResult<u64>)
        requires
            old(self)@.valid(),
            old(self)@.next_client < u64::MAX,
        ensures
            final(self)@.valid(),
            match outcome {
                Ok(client) => {
                    let period = period_of(buffer_frames as int, format.sample_rate as int);
                    let state = WasapiExclusiveState {
                        device_id,
                        buffer_frames,
                        period_ms: period as u32,
                        format,
                    };
                    let noted = old(self)@.measured("wasapi_exclusive"@, device_id, period);
                    &&& old(self)@.device(device_id) is Some
                    &&& client == old(self)@.next_client
                    &&& final(self)@ == BackendModel {
                        clients: noted.clients.push((client, state)),
                        next_client: (client + 1) as u64,
                        ..noted
                    }
                },
                Err(error) => {
                    &&& old(self)@.device(device_id) is None
                    &&& error.code == ReasonCode::RcAudioUnsupported
                    &&& final(self)@ == old(self)@
                },
            },
    {
        match self.device_info(device_id) {
            Ok(_) => {},
            Err(error) => {
                return Err(error);
            },
        }
        let period_ms: u32 = if format.sample_rate > 0 {
            let period: u32 = duration_ms(format.sample_rate, buffer_frames, u32::MAX);
            if period < 1 {
                1
            } else {
                period
            }
        } else {
            10
        };
        let ghost before = self@;
        let client: u64 = self.next_audio_client_id;
        let state = WasapiExclusiveState { device_id, buffer_frames, period_ms, format };
        self.log_latency("wasapi_exclusive", device_id, period_ms);
        self.exclusive_clients.push((client, state));
        self.next_audio_client_id = client + 1;
        proof {
            lemma_growing_push(
                before.clients,
                |entry: Client| entry.0,
                (client, state),
                self@.next_client,
            );
            assert(self@.devices == before.devices);
        }
        Ok(client)
    }

    /// The state of a client that pushes `sample_count` samples. It has to
    /// push just as many as its buffer holds.
    pub fn check_exclusive_push(&self, client: u64, sample_count: usize) -> (outcome: AppResult<
        WasapiExclusiveState,
    >)
        ensures
            match client_from(self@.clients, client, 0) {
                None => outcome matches Err(error) && error.code == ReasonCode::RcAudioUnsupported,
                Some(state) => if sample_count == state.buffer_frames * state.format.channels {
                    outcome == Ok::<WasapiExclusiveState, AppError>(state)
                } else {
                    outcome matches Err(error) && error.code
                        == ReasonCode::RcAudioBufferSizeMismatch
                },
            },
    {
        let ghost all = self.exclusive_clients@;
        let mut i: usize = 0;
        while i < self.exclusive_clients.len()
            invariant
                i <= self.exclusive_clients.len(),
                all == self.exclusive_clients@,
                client_from(all, client, 0) == client_from(all, client, i as int),
            decreases self.exclusive_clients.len() - i,
        {
            if self.exclusive_clients[i].0 == client {
                let state: WasapiExclusiveState = self.exclusive_clients[i].1;
                assert(0 <= state.buffer_frames * state.format.channels <= 0x1_0000_0000_0000_0000
                    * 0x1_0000) by (nonlinear_arith)
                    requires
                        0 <= state.buffer_frames <= 0x1_0000_0000_0000_0000,
                        0 <= state.format.channels <= 0x1_0000,
                ;
                let expected: u128 = state.buffer_frames as u128 * state.format.channels as u128;
                if sample_count as u128 != expected {
                    return refused(
                        ReasonCode::RcAudioBufferSizeMismatch,
                        &mismatch(
                            state.buffer_frames,
                            expected,
                            state.format.channels as usize,
                            sample_count,
                        ),
                    );
                }
                return Ok(state);
            }
            i += 1;
        }
        refused(
            ReasonCode::RcAudioUnsupported,
            &noted("unknown exclusive-mode audio client ", client, ""),
        )
    }

    /// The latencies that were measured.
    pub fn latency_log(&self) -> (records: &[LatencyRecord])
        ensures
            records.deep_view() == self@.latencies,
    {
        let records: &[LatencyRecord] = self.latency_log.as_slice();
        assert(records.deep_view() =~= self.latency_log.deep_view());
        records
    }

    /// What the samples that wait for a device last, in milliseconds; at most
    /// 50.
    pub fn measure_output_latency(&self, device_id: u64, queued_samples: usize) -> (outcome: AppResult<
        u32,
    >)
        ensures
            match self@.device(device_id) {
                None => outcome matches Err(error) && error.code == ReasonCode::RcAudioUnsupported,
                Some(device) => outcome == Ok::<u32, AppError>(
                    if device.channels == 0 || device.sample_rate == 0 {
                        0
                    } else {
                        limited_ms(
                            queued_samples as int / device.channels as int,
                            device.sample_rate as int,
                            50,
                        ) as u32
                    },
                ),
            },
    {
        let device: &RealAudioDevice = match self.device_info(device_id) {
            Ok(device) => device,
            Err(error) => {
                return Err(error);
            },
        };
        if device.channels == 0 || device.sample_rate == 0 {
            return Ok(0);
        }
        let frames: usize = queued_samples / device.channels as usize;
        Ok(duration_ms(device.sample_rate, frames, 50))
    }

    /// Forgets the stream of a device, and the clients that have the device
    /// for themselves.
    pub fn close_stream(&mut self, device_id: u64)
        requires
            old(self)@.valid(),
        ensures
            final(self)@.valid(),
            final(self)@ == (BackendModel {
                streams: old(self)@.streams.filter(|id: u64| id != device_id),
                clients: old(self)@.clients.filter(
                    |client: Client| client.1.device_id != device_id,
                ),
                ..old(self)@
            }),
    {
        let ghost before = self@;
        let ghost other = |id: u64| id != device_id;
        let ghost elsewhere = |client: Client| client.1.device_id != device_id;
        let mut streams: Vec<u64> = Vec::new();
        let mut i: usize = 0;
        proof {
            reveal(Seq::filter);
            assert(before.streams.take(0).filter(other) =~= Seq::<u64>::empty());
        }
        while i < self.streams.len()
            invariant
                i <= self.streams.len(),
                self@ == before,
                other == (|id: u64| id != device_id),
                streams@ == before.streams.take(i as int).filter(other),
            decreases self.streams.len() - i,
        {
            proof {
                reveal(Seq::filter);
                assert(before.streams.take(i + 1).drop_last() =~= before.streams.take(i as int));
            }
            if self.streams[i] != device_id {
                streams.push(self.streams[i]);
            }
            i += 1;
        }
        assert(before.streams.take(i as int) =~= before.streams);
        let mut clients: Vec<Client> = Vec::new();
        let mut j: usize = 0;
        proof {
            reveal(Seq::filter);
            assert(before.clients.take(0).filter(elsewhere) =~= Seq::<Client>::empty());
        }
        while j < self.exclusive_clients.len()
            invariant
                j <= self.exclusive_clients.len(),
                self@ == before,
                elsewhere == (|client: Client| client.1.device_id != device_id),
                clients@ == before.clients.take(j as int).filter(elsewhere),
            decreases self.exclusive_clients.len() - j,
        {
            proof {
                reveal(Seq::filter);
                assert(before.clients.take(j + 1).drop_last() =~= before.clients.take(j as int));
            }
            if self.exclusive_clients[j].1.device_id != device_id {
                clients.push(self.exclusive_clients[j]);
            }
            j += 1;
        }
        assert(before.clients.take(j as int) =~= before.clients);
        self.streams = streams;
        self.exclusive_clients = clients;
        proof {
            lemma_growing_filtered(
                before.clients,
                |client: Client| client.0,
                elsewhere,
                before.next_client,
            );
            assert(self@.devices == before.devices);
        }
    }

    /// Compares the devices with those that the host lists now. Those that are
    /// new get a number, those that are gone lose their stream; of several
    /// listed under one name the last counts. Says which devices were added
    /// and the numbers of those that were removed.
    pub fn detect_device_changes(&mut self, listing: Vec<HostDevice>) -> (changes: (
        Vec<RealAudioDevice>,
        Vec<u64>,
    ))
        requires
            old(self)@.valid(),
            old(self)@.next_device + listing@.len() <= u64::MAX,
        ensures
            final(self)@.valid(),
            ({
                let added = added_devices(
                    old(self)@.devices,
                    listing.deep_view(),
                    old(self)@.next_device,
                );
                let all = old(self)@.devices + added;
                let removed = no_longer_listed(all, listing.deep_view());
                &&& changes.0.deep_view() == added
                &&& changes.1@ == removed
                &&& final(self)@ == BackendModel {
                    devices: still_listed(all, listing.deep_view()),
                    next_device: (old(self)@.next_device + added.len()) as u64,
                    streams: old(self)@.streams.filter(|id: u64| !removed.contains(id)),
                    ..old(self)@
                }
            }),
    {
        let added: Vec<RealAudioDevice> = self.add_devices(&listing);
        let removed: Vec<u64> = self.remove_devices(&listing);
        (added, removed)
    }

    fn add_devices(&mut self, listing: &Vec<HostDevice>) -> (added: Vec<RealAudioDevice>)
        requires
            old(self)@.valid(),
            old(self)@.next_device + listing@.len() <= u64::MAX,
        ensures
            final(self)@.valid(),
            ({
                let expected = added_devices(
                    old(self)@.devices,
                    listing.deep_view(),
                    old(self)@.next_device,
                );
                &&& added.deep_view() == expected
                &&& final(self)@ == BackendModel {
                    devices: old(self)@.devices + expected,
                    next_device: (old(self)@.next_device + expected.len()) as u64,
                    ..old(self)@
                }
            }),
    {
        let ghost before = self@;
        let ghost listed = listing.deep_view();
        let ghost fresh = |name: Seq<char>| !has_name(before.devices, name);
        let ghost number = |device: RealAudioDeviceModel| device.id;
        let known: usize = self.devices.len();
        let names: Vec<String> = sorted_names(listing);
        let ghost all = names.deep_view();
        let mut added: Vec<RealAudioDevice> = Vec::new();
        let mut i: usize = 0;
        proof {
            reveal(Seq::filter);
            crate::order::lemma_sorted_once(names_of(listed));
            lemma_sorted_once_is_shorter(names_of(listed));
            assert(all.take(0).filter(fresh) =~= Seq::<Seq<char>>::empty());
            assert(added.deep_view() =~= Seq::<RealAudioDeviceModel>::empty());
            assert(self.devices.deep_view() =~= before.devices + added.deep_view());
        }
        while i < names.len()
            invariant
                i <= names.len(),
                known == before.devices.len(),
                all == names.deep_view(),
                all == sorted_once(names_of(listed)),
                all.len() <= listed.len(),
                listed == listing.deep_view(),
                fresh == (|name: Seq<char>| !has_name(before.devices, name)),
                number == (|device: RealAudioDeviceModel| device.id),
                before.next_device + listed.len() <= u64::MAX,
                self@ == (BackendModel {
                    devices: before.devices + added.deep_view(),
                    next_device: (before.next_device + added.deep_view().len()) as u64,
                    ..before
                }),
                self@.valid(),
                added.deep_view().len() == added.len(),
                added.len() <= i,
                added.deep_view() == Seq::new(
                    all.take(i as int).filter(fresh).len(),
                    |k: int|
                        numbered(
                            last_named(
                                listed,
                                all.take(i as int).filter(fresh)[k],
                                listed.len() as int,
                            ),
                            (before.next_device + k) as u64,
                        ),
                ),
            decreases names.len() - i,
        {
            let ghost so_far = all.take(i as int).filter(fresh);
            proof {
                reveal(Seq::filter);
                assert(all.take(i + 1).drop_last() =~= all.take(i as int));
                assert(all.take(i + 1).last() == names@[i as int]@);
                assert(self.devices.deep_view().take(known as int) =~= before.devices);
            }
            if !is_named(&self.devices, known, &names[i]) {
                let at: usize = find_last_named(listing, &names[i]);
                let device = RealAudioDevice {
                    id: self.next_device_id,
                    name: listing[at].name.clone(),
                    channels: listing[at].channels,
                    sample_rate: listing[at].sample_rate,
                    is_default: listing[at].is_default,
                };
                let ghost model = device.deep_view();
                let ghost was = self@;
                let ghost list = added.deep_view();
                added.push(device.duplicate());
                self.devices.push(device);
                self.next_device_id = self.next_device_id + 1;
                proof {
                    assert(added.deep_view() =~= list.push(model));
                    assert(self.devices.deep_view() =~= was.devices.push(model));
                    assert(was.devices.push(model) =~= before.devices + list.push(model));
                    lemma_growing_push(was.devices, number, model, self@.next_device);
                    assert(all.take(i + 1).filter(fresh) == so_far.push(names@[i as int]@));
                    assert(added.deep_view() =~= Seq::new(
                        all.take(i + 1).filter(fresh).len(),
                        |k: int|
                            numbered(
                                last_named(
                                    listed,
                                    all.take(i + 1).filter(fresh)[k],
                                    listed.len() as int,
                                ),
                                (before.next_device + k) as u64,
                            ),
                    ));
                }
            }
            i += 1;
        }
        assert(all.take(i as int) =~= all);
        added
    }

    fn remove_devices(&mut self, listing: &Vec<HostDevice>) -> (removed: Vec<u64>)
        requires
            old(self)@.valid(),
        ensures
            final(self)@.valid(),
            ({
                let expected = no_longer_listed(old(self)@.devices, listing.deep_view());
                &&& removed@ == expected
                &&& final(self)@ == BackendModel {
                    devices: still_listed(old(self)@.devices, listing.deep_view()),
                    streams: old(self)@.streams.filter(|id: u64| !expected.contains(id)),
                    ..old(self)@
                }
            }),
    {
        let ghost before = self@;
        let ghost listed = listing.deep_view();
        let ghost stays = |device: RealAudioDeviceModel| names_of(listed).contains(device.name);
        let ghost goes = |device: RealAudioDeviceModel| !names_of(listed).contains(device.name);
        let ghost number = |device: RealAudioDeviceModel| device.id;
        let mut devices: Vec<RealAudioDevice> = Vec::new();
        let mut removed: Vec<u64> = Vec::new();
        let mut i: usize = 0;
        proof {
            reveal(Seq::filter);
            assert(before.devices.take(0).filter(stays) =~= Seq::<RealAudioDeviceModel>::empty());
            assert(before.devices.take(0).filter(goes) =~= Seq::<RealAudioDeviceModel>::empty());
            assert(devices.deep_view() =~= Seq::<RealAudioDeviceModel>::empty());
            assert(removed@ =~= before.devices.take(0).filter(goes).map_values(number));
        }
        while i < self.devices.len()
            invariant
                i <= self.devices.len(),
                self@ == before,
                listed == listing.deep_view(),
                stays == (|device: RealAudioDeviceModel| names_of(listed).contains(device.name)),
                goes == (|device: RealAudioDeviceModel| !names_of(listed).contains(device.name)),
                number == (|device: RealAudioDeviceModel| device.id),
                devices.deep_view() == before.devices.take(i as int).filter(stays),
                removed@ == before.devices.take(i as int).filter(goes).map_values(number),
            decreases self.devices.len() - i,
        {
            let ghost model = self.devices@[i as int].deep_view();
            proof {
                reveal(Seq::filter);
                assert(before.devices.take(i + 1).drop_last() =~= before.devices.take(i as int));
                assert(before.devices.take(i + 1).last() == model);
            }
            if is_listed(listing, &self.devices[i].name) {
                let ghost list = devices.deep_view();
                devices.push(self.devices[i].duplicate());
                assert(devices.deep_view() =~= list.push(model));
            } else {
                let ghost list = before.devices.take(i as int).filter(goes);
                removed.push(self.devices[i].id);
                assert(removed@ =~= list.push(model).map_values(number));
            }
            i += 1;
        }
        assert(before.devices.take(i as int) =~= before.devices);
        let ghost expected = removed@;
        let ghost kept = |id: u64| !expected.contains(id);
        let mut streams: Vec<u64> = Vec::new();
        let mut j: usize = 0;
        proof {
            reveal(Seq::filter);
            assert(before.streams.take(0).filter(kept) =~= Seq::<u64>::empty());
        }
        while j < self.streams.len()
            invariant
                j <= self.streams.len(),
                self@ == before,
                expected == removed@,
                kept == (|id: u64| !expected.contains(id)),
                streams@ == before.streams.take(j as int).filter(kept),
            decreases self.streams.len() - j,
        {
            proof {
                reveal(Seq::filter);
                assert(before.streams.take(j + 1).drop_last() =~= before.streams.take(j as int));
            }
            if !has_number(&removed, self.streams[j]) {
                streams.push(self.streams[j]);
            }
            j += 1;
        }
        assert(before.streams.take(j as int) =~= before.streams);
        self.devices = devices;
        self.streams = streams;
        proof {
            lemma_growing_filtered(before.devices, number, stays, before.next_device);
        }
        removed
    }

    /// Forgets all streams, and all clients that have a device for themselves.
    pub fn close_all_streams(&mut self)
        requires
            old(self)@.valid(),
        ensures
            final(self)@.valid(),
            final(self)@ == (BackendModel {
                streams: Seq::empty(),
                clients: Seq::empty(),
                ..old(self)@
            }),
    {
        let ghost before = self@;
        self.streams = Vec::new();
        self.exclusive_clients = Vec::new();
        assert(self@.devices == before.devices);
    }
}

proof fn lemma_growing_filtered<A>(
    items: Seq<A>,
    number: spec_fn(A) -> u64,
    keep: spec_fn(A) -> bool,
    next: u64,
)
    requires
        growing(items, number, next),
    ensures
        growing(items.filter(keep), number, next),
        forall|i: int|
            0 <= i < items.filter(keep).len() ==> items.contains(#[trigger] items.filter(keep)[i]),
    decreases items.len(),
{
    reveal(Seq::filter);
    if items.len() > 0 {
        let front = items.drop_last();
        assert(growing(front, number, next));
        lemma_growing_filtered(front, number, keep, next);
        let kept = items.filter(keep);
        let before = front.filter(keep);
        assert forall|i: int| 0 <= i < kept.len() implies items.contains(#[trigger] kept[i]) by {
            if i < before.len() {
                assert(front.contains(before[i]));
                let k = choose|k: int| 0 <= k < front.len() && front[k] == before[i];
                assert(items[k] == kept[i]);
            } else {
                assert(items[items.len() - 1] == kept[i]);
            }
        }
        assert forall|i: int| 0 <= i < kept.len() implies number(#[trigger] kept[i]) < next by {
            if i < before.len() {
                assert(number(before[i]) < next);
            }
        }
        assert forall|i: int, j: int| 0 <= i < j < kept.len() implies number(#[trigger] kept[i])
            < number(#[trigger] kept[j]) by {
            if j < before.len() {
                assert(number(before[i]) < number(before[j]));
            } else {
                assert(front.contains(before[i]));
                let k = choose|k: int| 0 <= k < front.len() && front[k] == before[i];
                assert(number(items[k]) < number(items[items.len() - 1]));
            }
        }
    }
}

proof fn lemma_growing_push<A>(items: Seq<A>, number: spec_fn(A) -> u64, item: A, next: u64)
    requires
        growing(items, number, number(item)),
        number(item) < next,
    ensures
        growing(items.push(item), number, next),
{
    let is = items.push(item);
    assert forall|i: int, j: int| 0 <= i < j < is.len() implies number(#[trigger] is[i]) < number(
        #[trigger] is[j],
    ) by {
        assert(number(items[i]) < number(item));
        if j < items.len() {
            assert(number(items[i]) < number(items[j]));
        }
    }
    assert forall|i: int| 0 <= i < is.len() implies number(#[trigger] is[i]) < next by {
        if i < items.len() {
            assert(number(items[i]) < number(item));
        }
    }
}

/// The default device is the first that is marked as such, and there is one
/// exactly where some device is marked.
pub proof fn lemma_default_device(devices: Seq<RealAudioDeviceModel>)
    ensures
        match default_from(devices, 0) {
            Some(id) => exists|i: int| is_first_default(devices, i) && devices[i].id == id,
            None => forall|i: int| 0 <= i < devices.len() ==> !(#[trigger] devices[i]).is_default,
        },
{
    lemma_default_from(devices, 0);
}

/// Device `i` is marked as the default and none before it is.
pub open spec fn is_first_default(devices: Seq<RealAudioDeviceModel>, i: int) -> bool {
    &&& 0 <= i < devices.len()
    &&& devices[i].is_default
    &&& forall|j: int| 0 <= j < i ==> !(#[trigger] devices[j]).is_default
}

proof fn lemma_default_from(devices: Seq<RealAudioDeviceModel>, from: int)
    requires
        0 <= from <= devices.len(),
        forall|j: int| 0 <= j < from ==> !(#[trigger] devices[j]).is_default,
    ensures
        match default_from(devices, from) {
            Some(id) => exists|i: int| is_first_default(devices, i) && devices[i].id == id,
            None => forall|i: int| 0 <= i < devices.len() ==> !(#[trigger] devices[i]).is_default,
        },
    decreases devices.len() - from,
{
    if from < devices.len() {
        if devices[from].is_default {
            assert(is_first_default(devices, from));
        } else {
            lemma_default_from(devices, from + 1);
        }
    }
}

/// A device that is found by a number has that number, and where the numbers
/// differ every device is found by its own.
pub proof fn lemma_device_by_number(devices: Seq<RealAudioDeviceModel>, id: u64)
    ensures
        match device_from(devices, id, 0) {
            Some(device) => device.id == id && devices.contains(device),
            None => forall|i: int| 0 <= i < devices.len() ==> (#[trigger] devices[i]).id != id,
        },
        forall|i: int|
            0 <= i < devices.len() && (#[trigger] devices[i]).id == id && (forall|j: int|
                0 <= j < i ==> (#[trigger] devices[j]).id != id) ==> device_from(devices, id, 0)
                == Some(devices[i]),
{
    lemma_device_from(devices, id, 0);
}

proof fn lemma_device_from(devices: Seq<RealAudioDeviceModel>, id: u64, from: int)
    requires
        0 <= from <= devices.len(),
        forall|j: int| 0 <= j < from ==> (#[trigger] devices[j]).id != id,
    ensures
        match device_from(devices, id, from) {
            Some(device) => device.id == id && devices.contains(device),
            None => forall|i: int| 0 <= i < devices.len() ==> (#[trigger] devices[i]).id != id,
        },
        forall|i: int|
            0 <= i < devices.len() && (#[trigger] devices[i]).id == id && (forall|j: int|
                0 <= j < i ==> (#[trigger] devices[j]).id != id) ==> device_from(devices, id, from)
                == Some(devices[i]),
    decreases devices.len() - from,
{
    if from < devices.len() {
        if devices[from].id == id {
            assert(devices.contains(devices[from]));
            assert forall|i: int|
                0 <= i < devices.len() && (#[trigger] devices[i]).id == id && (forall|j: int|
                    0 <= j < i ==> (#[trigger] devices[j]).id != id) implies device_from(
                devices,
                id,
                from,
            ) == Some(devices[i]) by {
                if from < i {
                    assert(devices[from].id != id);
                }
            }
        } else {
            lemma_device_from(devices, id, from + 1);
        }
    }
}

/// A client of a device is the first on that device; one found by its number
/// has that number.
pub proof fn lemma_clients_found(clients: Seq<Client>, device_id: u64, id: u64)
    ensures
        match client_on(clients, device_id, 0) {
            Some(state) => state.device_id == device_id && exists|i: int|
                0 <= i < clients.len() && #[trigger] clients[i].1 == state,
            None => forall|i: int|
                0 <= i < clients.len() ==> (#[trigger] clients[i]).1.device_id != device_id,
        },
        match client_from(clients, id, 0) {
            Some(state) => exists|i: int|
                0 <= i < clients.len() && #[trigger] clients[i] == (id, state),
            None => forall|i: int| 0 <= i < clients.len() ==> (#[trigger] clients[i]).0 != id,
        },
{
    lemma_client_on(clients, device_id, 0);
    lemma_client_from(clients, id, 0);
}

proof fn lemma_client_on(clients: Seq<Client>, device_id: u64, from: int)
    requires
        0 <= from <= clients.len(),
        forall|i: int| 0 <= i < from ==> (#[trigger] clients[i]).1.device_id != device_id,
    ensures
        match client_on(clients, device_id, from) {
            Some(state) => state.device_id == device_id && exists|i: int|
                0 <= i < clients.len() && #[trigger] clients[i].1 == state,
            None => forall|i: int|
                0 <= i < clients.len() ==> (#[trigger] clients[i]).1.device_id != device_id,
        },
    decreases clients.len() - from,
{
    if from < clients.len() && clients[from].1.device_id != device_id {
        lemma_client_on(clients, device_id, from + 1);
    }
}

proof fn lemma_client_from(clients: Seq<Client>, id: u64, from: int)
    requires
        0 <= from <= clients.len(),
        forall|i: int| 0 <= i < from ==> (#[trigger] clients[i]).0 != id,
    ensures
        match client_from(clients, id, from) {
            Some(state) => exists|i: int|
                0 <= i < clients.len() && #[trigger] clients[i] == (id, state),
            None => forall|i: int| 0 <= i < clients.len() ==> (#[trigger] clients[i]).0 != id,
        },
    decreases clients.len() - from,
{
    if from < clients.len() {
        if clients[from].0 == id {
            assert(clients[from] == (id, clients[from].1));
        } else {
            lemma_client_from(clients, id, from + 1);
        }
    }
}

/// The period of a client is the time of its buffer, one millisecond at least,
/// and ten where no rate is given.
pub proof fn lemma_period(buffer_frames: int, rate: int)
    requires
        0 <= buffer_frames,
        0 <= rate,
    ensures
        rate == 0 ==> period_of(buffer_frames, rate) == 10,
        rate > 0 ==> period_of(buffer_frames, rate) >= 1,
        rate > 0 && 1 <= rounded_ms(buffer_frames, rate) <= u32::MAX ==> period_of(
            buffer_frames,
            rate,
        ) == rounded_ms(buffer_frames, rate),
        rate > 0 && rounded_ms(buffer_frames, rate) == 0 ==> period_of(buffer_frames, rate) == 1,
{
    lemma_limited_ms(buffer_frames, rate, u32::MAX as int);
}

/// After a listing was taken in, a device is known exactly where the listing
/// names it: those known before keep their numbers and their order, and each
/// other name is known once, by its last entry and a new number. What the
/// listing does not name is told as removed.
pub proof fn lemma_listing_taken_in(
    devices: Seq<RealAudioDeviceModel>,
    listing: Seq<HostDeviceModel>,
    next: u64,
)
    requires
        next + listing.len() <= u64::MAX,
    ensures
        ({
            let added = added_devices(devices, listing, next);
            let all = devices + added;
            &&& forall|i: int|
                0 <= i < added.len() ==> (#[trigger] added[i]).id == next + i && names_of(
                    listing,
                ).contains(added[i].name) && !has_name(devices, added[i].name)
            &&& forall|name: Seq<char>| #[trigger]
                names_of(listing).contains(name) ==> has_name(all, name)
            &&& forall|i: int, j: int|
                0 <= i < j < added.len() ==> (#[trigger] added[i]).name != (
                #[trigger] added[j]).name
            &&& forall|device: RealAudioDeviceModel| #[trigger]
                still_listed(all, listing).contains(device) <==> all.contains(device) && names_of(
                    listing,
                ).contains(device.name)
            &&& forall|id: u64| #[trigger]
                no_longer_listed(devices, listing).contains(id) <==> exists|i: int|
                    0 <= i < devices.len() && (#[trigger] devices[i]).id == id && !names_of(
                        listing,
                    ).contains(devices[i].name)
        }),
{
    let added = added_devices(devices, listing, next);
    let all = devices + added;
    let names = new_names(devices, listing);
    let sorted = sorted_once(names_of(listing));
    let fresh = |name: Seq<char>| !has_name(devices, name);
    lemma_sorted_once(names_of(listing));
    lemma_filtered(sorted, fresh);
    assert(sorted.no_duplicates()) by {
        assert forall|i: int, j: int|
            0 <= i < sorted.len() && 0 <= j < sorted.len() && i != j implies sorted[i]
            != sorted[j] by {
            lemma_precedes_total(sorted[i], sorted[j]);
            if i < j {
                assert(precedes(sorted[i], sorted[j]));
            } else {
                assert(precedes(sorted[j], sorted[i]));
            }
        }
    }
    sorted.lemma_filter_len(fresh);
    lemma_sorted_once_length(names_of(listing));
    assert forall|i: int| 0 <= i < added.len() implies (#[trigger] added[i]).id == next + i
        && added[i].name == names[i] && names_of(listing).contains(added[i].name) && !has_name(
        devices,
        added[i].name,
    ) by {
        assert(names.contains(names[i]));
        lemma_last_named(listing, names[i]);
    }
    assert forall|name: Seq<char>| #[trigger] names_of(listing).contains(name) implies has_name(
        all,
        name,
    ) by {
        if has_name(devices, name) {
            let i = choose|i: int| 0 <= i < devices.len() && (#[trigger] devices[i]).name == name;
            assert(all[i].name == name);
        } else {
            assert(names.contains(name));
            let i = choose|i: int| 0 <= i < names.len() && names[i] == name;
            assert(added[i].name == name);
            assert(all[devices.len() + i].name == name);
        }
    }
    assert forall|i: int, j: int| 0 <= i < j < added.len() implies (#[trigger] added[i]).name != (
    #[trigger] added[j]).name by {
        assert(names[i] != names[j]);
    }
    lemma_filtered(
        all,
        |device: RealAudioDeviceModel| names_of(listing).contains(device.name),
    );
    let gone = |device: RealAudioDeviceModel| !names_of(listing).contains(device.name);
    lemma_filtered(devices, gone);
    let kept = devices.filter(gone);
    let removed = no_longer_listed(devices, listing);
    assert forall|id: u64| #[trigger] removed.contains(id) <==> exists|i: int|
        0 <= i < devices.len() && (#[trigger] devices[i]).id == id && !names_of(
            listing,
        ).contains(devices[i].name) by {
        if removed.contains(id) {
            let k = choose|k: int| 0 <= k < removed.len() && removed[k] == id;
            assert(kept.contains(kept[k]));
            let i = choose|i: int| 0 <= i < devices.len() && devices[i] == kept[k];
            assert(devices[i].id == id);
        }
        if exists|i: int|
            0 <= i < devices.len() && (#[trigger] devices[i]).id == id && !names_of(
                listing,
            ).contains(devices[i].name) {
            let i = choose|i: int|
                0 <= i < devices.len() && (#[trigger] devices[i]).id == id && !names_of(
                    listing,
                ).contains(devices[i].name);
            assert(devices.contains(devices[i]));
            assert(kept.contains(devices[i]));
            let k = choose|k: int| 0 <= k < kept.len() && kept[k] == devices[i];
            assert(removed[k] == id);
        }
    }
}

/// The last entry of a name that is listed has that name, and no entry behind
/// it has.
pub proof fn lemma_last_named(listing: Seq<HostDeviceModel>, name: Seq<char>)
    requires
        names_of(listing).contains(name),
    ensures
        exists|i: int| is_last_named(listing, name, i) && last_named(
            listing,
            name,
            listing.len() as int,
        ) == listing[i],
        last_named(listing, name, listing.len() as int).name == name,
{
    let i = choose|i: int| 0 <= i < names_of(listing).len() && names_of(listing)[i] == name;
    assert(listing[i].name == name);
    lemma_last_named_from(listing, name, listing.len() as int, i);
}

/// Entry `i` has the name and none behind it has.
pub open spec fn is_last_named(listing: Seq<HostDeviceModel>, name: Seq<char>, i: int) -> bool {
    &&& 0 <= i < listing.len()
    &&& listing[i].name == name
    &&& forall|j: int| i < j < listing.len() ==> (#[trigger] listing[j]).name != name
}

proof fn lemma_last_named_from(
    listing: Seq<HostDeviceModel>,
    name: Seq<char>,
    count: int,
    witness: int,
)
    requires
        0 <= witness < count <= listing.len(),
        listing[witness].name == name,
        forall|j: int| count <= j < listing.len() ==> (#[trigger] listing[j]).name != name,
    ensures
        exists|i: int| is_last_named(listing, name, i) && last_named(listing, name, count)
            == listing[i],
    decreases count,
{
    if listing[count - 1].name == name {
        assert(is_last_named(listing, name, count - 1));
    } else {
        lemma_last_named_from(listing, name, count - 1, witness);
    }
}

proof fn lemma_sorted_once_length(texts: Seq<Seq<char>>)
    ensures
        sorted_once(texts).len() <= texts.len(),
    decreases texts.len(),
{
    if texts.len() > 0 {
        lemma_sorted_once_length(texts.drop_last());
        lemma_placed_length(sorted_once(texts.drop_last()), texts.last());
    }
}

proof fn lemma_placed_length(texts: Seq<Seq<char>>, text: Seq<char>)
    ensures
        placed(texts, text).len() <= texts.len() + 1,
    decreases texts.len(),
{
    if texts.len() > 0 {
        lemma_placed_length(texts.drop_last(), text);
    }
}

/// A device keeps what the host told of it, and a device that is new has what
/// the last entry of its name in the list tells; the new ones are numbered in the
/// order of their names.
pub proof fn lemma_added_devices(
    devices: Seq<RealAudioDeviceModel>,
    listing: Seq<HostDeviceModel>,
    next: u64,
    i: int,
    k: int,
)
    requires
        next + listing.len() <= u64::MAX,
        0 <= i < added_devices(devices, listing, next).len(),
        is_last_named(listing, added_devices(devices, listing, next)[i].name, k),
    ensures
        ({
            let added = added_devices(devices, listing, next);
            &&& added[i].channels == listing[k].channels
            &&& added[i].sample_rate == listing[k].sample_rate
            &&& added[i].is_default == listing[k].is_default
            &&& numbered(listing[k], added[i].id) == added[i]
            &&& forall|j: int|
                0 <= j < i ==> precedes((#[trigger] added[j]).name, added[i].name)
        }),
{
    let added = added_devices(devices, listing, next);
    let sorted = sorted_once(names_of(listing));
    let fresh = |name: Seq<char>| !has_name(devices, name);
    let names = new_names(devices, listing);
    lemma_sorted_once(names_of(listing));
    lemma_filter_ascends(sorted, fresh);
    lemma_filtered(sorted, fresh);
    assert forall|j: int| 0 <= j < names.len() implies (#[trigger] added[j]).name == names[j] by {
        assert(names.contains(names[j]));
        lemma_last_named(listing, names[j]);
    }
    assert(added[i].name == names[i]);
    assert(names.contains(names[i]));
    lemma_last_named(listing, names[i]);
    let own = choose|own: int|
        is_last_named(listing, names[i], own) && last_named(
            listing,
            names[i],
            listing.len() as int,
        ) == listing[own];
    if own < k {
        assert(listing[k].name != names[i]);
    }
    if k < own {
        assert(listing[own].name != names[i]);
    }
    assert forall|j: int| 0 <= j < i implies precedes((#[trigger] added[j]).name, added[i].name) by {
        assert(precedes(names[j], names[i]));
    }
}

proof fn lemma_filter_ascends(texts: Seq<Seq<char>>, wanted: spec_fn(Seq<char>) -> bool)
    requires
        ascending(texts),
    ensures
        ascending(texts.filter(wanted)),
    decreases texts.len(),
{
    reveal(Seq::filter);
    if texts.len() > 0 {
        let front = texts.drop_last();
        assert(ascending(front)) by {
            assert forall|i: int, j: int| 0 <= i < j < front.len() implies precedes(
                #[trigger] front[i],
                #[trigger] front[j],
            ) by {
                assert(precedes(texts[i], texts[j]));
            }
        }
        lemma_filter_ascends(front, wanted);
        lemma_filtered(front, wanted);
        let kept = front.filter(wanted);
        let all = texts.filter(wanted);
        if wanted(texts.last()) {
            assert(all =~= kept.push(texts.last()));
            assert forall|i: int, j: int| 0 <= i < j < all.len() implies precedes(
                #[trigger] all[i],
                #[trigger] all[j],
            ) by {
                if j < kept.len() {
                    assert(precedes(kept[i], kept[j]));
                } else {
                    assert(kept.contains(kept[i]));
                    let k = choose|k: int| 0 <= k < front.len() && front[k] == kept[i];
                    assert(precedes(texts[k], texts[texts.len() - 1]));
                }
            }
        } else {
            assert(all =~= kept);
        }
    }
}

/// Of several clients on a device the first is found.
pub proof fn lemma_first_client(clients: Seq<Client>, device_id: u64, i: int)
    requires
        0 <= i < clients.len(),
        clients[i].1.device_id == device_id,
        forall|j: int| 0 <= j < i ==> (#[trigger] clients[j]).1.device_id != device_id,
    ensures
        client_on(clients, device_id, 0) == Some(clients[i].1),
{
    lemma_client_skips(clients, device_id, 0, i);
}

proof fn lemma_client_skips(clients: Seq<Client>, device_id: u64, from: int, to: int)
    requires
        0 <= from <= to < clients.len(),
        forall|j: int| 0 <= j < to ==> (#[trigger] clients[j]).1.device_id != device_id,
    ensures
        client_on(clients, device_id, from) == client_on(clients, device_id, to),
    decreases to - from,
{
    if from < to {
        assert(clients[from].1.device_id != device_id);
        lemma_client_skips(clients, device_id, from + 1, to);
    }
}

} // verus!
