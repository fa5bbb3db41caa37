//! Xbox Media Audio: frames of quantised spectral coefficients.
//!
//! A stream is taken apart into subframes of whole-number coefficients, and
//! each sample is described by the points of the transformed subframes that
//! add up to it. The transform itself works on floating-point numbers and is
//! not done here.
use crate::audio::blocks::unsupported;
use crate::error::{AppResult, ReasonCode};
use crate::text::noted;
use vstd::prelude::*;
use vstd::slice::slice_to_vec;

verus! {

/// The bytes of a frame's header.
pub const XMA_FRAME_HEADER_SIZE: usize = 4;

/// The samples of a transformed subframe. Neighbouring frames overlap by half.
pub const XMA_FRAME_SAMPLES: usize = 256;

/// The most frames with coefficients that are decoded.
pub const XMA_FRAME_LIMIT: usize = 1024;

/// The coefficients of a subframe: where they begin, their size in bits, and
/// how many of them the stream holds. The rest are zero.
#[derive(Debug, Clone, Copy, PartialEq, Eq, Structural)]
pub struct XmaSubframe {
    pub start: usize,
    pub bits: usize,
    pub count: usize,
}

/// A sample of a transformed subframe.
#[derive(Debug, Clone, Copy, PartialEq, Eq, Structural)]
pub struct XmaPoint {
    pub subframe: usize,
    pub index: usize,
}

/// A sample: the sum of a point of its own frame and one of the frame before,
/// as far as there are such.
#[derive(Debug, Clone, Copy, PartialEq, Eq, Structural)]
pub struct XmaSample {
    pub current: Option<XmaPoint>,
    pub overlap: Option<XmaPoint>,
}

/// A stream taken apart: its bytes, low byte of each word first, its
/// subframes, and its samples, the channels taking turns.
#[derive(Debug)]
pub struct XmaDecoding {
    pub data: Vec<u8>,
    pub subframes: Vec<XmaSubframe>,
    pub samples: Vec<XmaSample>,
}

// ---------------------------------------------------------------------------
// The order of the bytes
// ---------------------------------------------------------------------------

/// A frame has this number of subframes.
pub open spec fn subframe_count(number: u8) -> bool {
    1 <= number <= 16
}

/// The words of the stream have their high byte first: only so does the first
/// frame have subframes.
pub open spec fn high_byte_first(bytes: Seq<u8>) -> bool {
    bytes.len() >= 4 && subframe_count(bytes[0]) && !subframe_count(bytes[3])
}

/// The bytes with each whole word turned round.
pub open spec fn words_turned(bytes: Seq<u8>) -> Seq<u8> {
    Seq::new(
        bytes.len(),
        |i: int|
            if i / 4 * 4 + 4 <= bytes.len() {
                bytes[i / 4 * 4 + 3 - i % 4]
            } else {
                bytes[i]
            },
    )
}

/// The bytes of the stream, low byte of each word first.
pub open spec fn in_order(bytes: Seq<u8>) -> Seq<u8> {
    if high_byte_first(bytes) {
        words_turned(bytes)
    } else {
        bytes
    }
}

/// Turning the words twice changes nothing.
pub proof fn lemma_words_turned_twice(bytes: Seq<u8>)
    ensures
        words_turned(words_turned(bytes)) == bytes,
{
    let once = words_turned(bytes);
    assert forall|i: int| 0 <= i < bytes.len() implies words_turned(once)[i] == bytes[i] by {
        if i / 4 * 4 + 4 <= bytes.len() {
            let j = i / 4 * 4 + 3 - i % 4;
            assert(j / 4 == i / 4 && j % 4 == 3 - i % 4);
        }
    }
    assert(words_turned(once) =~= bytes);
}

fn put_in_order(bytes: &[u8]) -> (data: Vec<u8>)
    ensures
        data@ == in_order(bytes@),
{
    let length: usize = bytes.len();
    if length < 4 || bytes[0] < 1 || bytes[0] > 16 || (bytes[3] >= 1 && bytes[3] <= 16) {
        return slice_to_vec(bytes);
    }
    let mut data: Vec<u8> = Vec::new();
    let mut i: usize = 0;
    while i < length
        invariant
            i <= length,
            length == bytes@.len(),
            data@ == words_turned(bytes@).take(i as int),
        decreases length - i,
    {
        let word: usize = i / 4 * 4;
        let byte: u8 = if length - word >= 4 {
            bytes[word + (3 - i % 4)]
        } else {
            bytes[i]
        };
        data.push(byte);
        assert(data@ =~= words_turned(bytes@).take(i + 1));
        i += 1;
    }
    assert(words_turned(bytes@).take(i as int) =~= words_turned(bytes@));
    data
}

// ---------------------------------------------------------------------------
// Coefficients
// ---------------------------------------------------------------------------

/// The size of a coefficient in bits, by the scale of its frame.
pub open spec fn coefficient_bits(scale: u8) -> usize {
    if scale < 2 {
        2
    } else if scale > 16 {
        16
    } else {
        scale as usize
    }
}

/// The size of a coefficient in whole bytes.
pub open spec fn coefficient_bytes(bits: usize) -> int {
    (bits + 7) / 8
}

/// The size of a subframe in bytes.
pub open spec fn subframe_size(bits: usize) -> int {
    XMA_FRAME_SAMPLES * coefficient_bytes(bits)
}

/// The subframe that begins at `start`; one that the stream breaks off holds
/// fewer coefficients.
pub open spec fn subframe_at(length: int, start: int, bits: usize) -> XmaSubframe {
    let end = if start + subframe_size(bits) < length {
        start + subframe_size(bits)
    } else {
        length
    };
    XmaSubframe {
        start: start as usize,
        bits,
        count: ((end - start) / coefficient_bytes(bits)) as usize,
    }
}

/// Two to the power of `bits`.
pub open spec fn two_to(bits: int) -> int
    decreases bits,
{
    if bits <= 0 {
        1
    } else {
        2 * two_to(bits - 1)
    }
}

/// A number of the given size: a set sign bit makes it negative, and all bits
/// above count only where it is not set.
pub open spec fn sign_extended(raw: int, bits: int) -> int {
    if raw / two_to(bits - 1) % 2 == 1 {
        raw % two_to(bits) - two_to(bits)
    } else {
        raw
    }
}

/// Coefficient `index` of a subframe, in units of its quantisation step.
pub open spec fn coefficient(data: Seq<u8>, subframe: XmaSubframe, index: int) -> int {
    if index >= subframe.count {
        0
    } else if coefficient_bytes(subframe.bits) == 1 {
        sign_extended(data[subframe.start + index] as int, subframe.bits as int)
    } else {
        sign_extended(
            data[subframe.start + 2 * index] + 0x100 * data[subframe.start + 2 * index + 1],
            subframe.bits as int,
        )
    }
}

/// The subframe lies inside the data, and its coefficients have a size.
pub open spec fn readable(data: Seq<u8>, subframe: XmaSubframe) -> bool {
    &&& 2 <= subframe.bits <= 16
    &&& subframe.count <= XMA_FRAME_SAMPLES
    &&& subframe.start + (if coefficient_bytes(subframe.bits) == 1 {
        subframe.count as int
    } else {
        2 * subframe.count
    }) <= data.len()
}

proof fn lemma_two_to(bits: int)
    requires
        0 <= bits <= 16,
    ensures
        1 <= two_to(bits) <= 0x1_0000,
{
    reveal_with_fuel(two_to, 17);
}

fn power(bits: usize) -> (value: i32)
    requires
        bits <= 16,
    ensures
        value == two_to(bits as int),
        1 <= value <= 0x1_0000,
{
    let mut value: i32 = 1;
    let mut done: usize = 0;
    while done < bits
        invariant
            done <= bits <= 16,
            value == two_to(done as int),
            1 <= value,
        decreases bits - done,
    {
        proof {
            lemma_two_to(done as int);
        }
        value = 2 * value;
        done += 1;
    }
    proof {
        lemma_two_to(bits as int);
    }
    value
}

fn extend_sign(raw: i32, bits: usize) -> (value: i32)
    requires
        0 <= raw <= 0xffff,
        1 <= bits <= 16,
    ensures
        value == sign_extended(raw as int, bits as int),
{
    let half: i32 = power(bits - 1);
    let whole: i32 = power(bits);
    let ghost high = raw as int / half as int;
    assert(0 <= high <= raw) by (nonlinear_arith)
        requires
            high == raw as int / half as int,
            half >= 1,
            raw >= 0,
    ;
    if raw / half % 2 == 1 {
        assert(0 <= raw as int % whole as int <= raw) by (nonlinear_arith)
            requires
                whole >= 1,
                raw >= 0,
        ;
        raw % whole - whole
    } else {
        raw
    }
}

/// The coefficients of a subframe, in units of its quantisation step.
pub fn xma_coefficients(data: &[u8], subframe: XmaSubframe) -> (coefficients: Vec<i32>)
    requires
        readable(data@, subframe),
    ensures
        coefficients@.len() == XMA_FRAME_SAMPLES,
        forall|i: int|
            0 <= i < XMA_FRAME_SAMPLES ==> (#[trigger] coefficients@[i]) == coefficient(
                data@,
                subframe,
                i,
            ),
{
    let length: usize = data.len();
    let wide: bool = subframe.bits > 8;
    let mut coefficients: Vec<i32> = Vec::new();
    let mut i: usize = 0;
    while i < XMA_FRAME_SAMPLES
        invariant
            i <= XMA_FRAME_SAMPLES,
            length == data@.len(),
            readable(data@, subframe),
            wide == (subframe.bits > 8),
            coefficients@.len() == i,
            forall|j: int|
                0 <= j < i ==> (#[trigger] coefficients@[j]) == coefficient(data@, subframe, j),
        decreases XMA_FRAME_SAMPLES - i,
    {
        let value: i32 = if i >= subframe.count {
            0
        } else if wide {
            let at: usize = subframe.start + 2 * i;
            extend_sign(data[at] as i32 + 0x100 * data[at + 1] as i32, subframe.bits)
        } else {
            extend_sign(data[subframe.start + i] as i32, subframe.bits)
        };
        coefficients.push(value);
        i += 1;
    }
    coefficients
}

// ---------------------------------------------------------------------------
// Frames
// ---------------------------------------------------------------------------

/// How far a stream has been taken apart: the place in it, the frames passed,
/// the subframes, the last subframe of each channel, and the samples.
pub struct XmaState {
    pub offset: int,
    pub frames: int,
    pub subframes: Seq<XmaSubframe>,
    pub previous: Seq<Option<usize>>,
    pub samples: Seq<XmaSample>,
}

/// A sample that nothing adds up to.
pub open spec fn silence() -> XmaSample {
    XmaSample { current: None, overlap: None }
}

/// Half a frame of samples: for the first `present` channels the first halves
/// of the subframes from `base` on, and for each channel the second half of
/// its last subframe.
pub open spec fn mixed(
    channels: int,
    base: int,
    present: int,
    previous: Seq<Option<usize>>,
) -> Seq<XmaSample> {
    Seq::new(
        (XMA_FRAME_SAMPLES / 2 * channels) as nat,
        |i: int| mixed_sample(i % channels, i / channels, base, present, previous),
    )
}

/// The sample of one channel at `index` in half a frame.
pub open spec fn mixed_sample(
    channel: int,
    index: int,
    base: int,
    present: int,
    previous: Seq<Option<usize>>,
) -> XmaSample {
    XmaSample {
        current: if channel < present {
            Some(XmaPoint { subframe: (base + channel) as usize, index: index as usize })
        } else {
            None
        },
        overlap: match previous[channel] {
            Some(subframe) => Some(
                XmaPoint { subframe, index: (index + XMA_FRAME_SAMPLES / 2) as usize },
            ),
            None => None,
        },
    }
}

/// The state after a frame without coefficients.
pub open spec fn after_silence(channels: int, state: XmaState) -> XmaState {
    XmaState {
        offset: state.offset + XMA_FRAME_HEADER_SIZE,
        frames: state.frames + 1,
        samples: state.samples + Seq::new(
            (XMA_FRAME_SAMPLES * channels) as nat,
            |i: int| silence(),
        ),
        ..state
    }
}

/// The channels for which a frame holds a subframe.
pub open spec fn present_channels(channels: int, number: u8) -> int {
    if number < channels {
        number as int
    } else {
        channels
    }
}

/// The state after a frame with coefficients; nothing where a subframe would
/// begin behind the end of the stream.
pub open spec fn after_frame(length: int, channels: int, number: u8, scale: u8, state: XmaState) -> Option<
    XmaState,
> {
    let bits = coefficient_bits(scale);
    let first = state.offset + XMA_FRAME_HEADER_SIZE;
    let present = present_channels(channels, number);
    let base = state.subframes.len() as int;
    if first + (present - 1) * subframe_size(bits) > length {
        None
    } else {
        Some(
            XmaState {
                offset: first + present * subframe_size(bits),
                frames: state.frames + 1,
                subframes: state.subframes + Seq::new(
                    present as nat,
                    |i: int| subframe_at(length, first + i * subframe_size(bits), bits),
                ),
                previous: Seq::new(
                    channels as nat,
                    |i: int|
                        if i < present {
                            Some((base + i) as usize)
                        } else {
                            state.previous[i]
                        },
                ),
                samples: if state.frames > 0 {
                    state.samples + mixed(channels, base, present, state.previous)
                } else {
                    state.samples
                },
            },
        )
    }
}

/// The state at the end of the stream: where no frame begins any more, or at a
/// header without subframes, or after the last frame that is decoded.
pub open spec fn walked(data: Seq<u8>, channels: int, state: XmaState) -> Option<XmaState>
    decreases
            (if data.len() > state.offset {
                data.len() - state.offset
            } else {
                0
            }),
    when 0 <= state.offset && 1 <= channels <= 2
{
    if state.offset + XMA_FRAME_HEADER_SIZE > data.len() {
        Some(state)
    } else {
        let number = data[state.offset + 3];
        let scale = data[state.offset + 2];
        if !subframe_count(number) {
            Some(state)
        } else if scale == 0 {
            walked(data, channels, after_silence(channels, state))
        } else {
            match after_frame(data.len() as int, channels, number, scale, state) {
                None => None,
                Some(next) => if next.frames > XMA_FRAME_LIMIT {
                    Some(next)
                } else {
                    proof {
                        let present = present_channels(channels, number);
                        let size = subframe_size(coefficient_bits(scale));
                        assert(present * size >= 0) by (nonlinear_arith)
                            requires
                                present >= 1,
                                size >= 0,
                        ;
                    }
                    walked(data, channels, next)
                },
            }
        }
    }
}

/// The state before the first frame.
pub open spec fn fresh(channels: int) -> XmaState {
    XmaState {
        offset: 0,
        frames: 0,
        subframes: Seq::empty(),
        previous: Seq::new(channels as nat, |i: int| None),
        samples: Seq::empty(),
    }
}

/// The subframes and samples of a stream. There are one or two channels, and
/// at least one frame; the second halves of the last subframes come last.
pub open spec fn taken_apart(bytes: Seq<u8>, channels: int) -> Option<
    (Seq<XmaSubframe>, Seq<XmaSample>),
> {
    if bytes.len() == 0 || (channels != 1 && channels != 2) {
        None
    } else {
        match walked(in_order(bytes), channels, fresh(channels)) {
            Some(state) if state.frames > 0 => Some(
                (state.subframes, state.samples + mixed(channels, 0, 0, state.previous)),
            ),
            _ => None,
        }
    }
}

// ---------------------------------------------------------------------------
// Taking a stream apart
// ---------------------------------------------------------------------------

fn push_silence(samples: &mut Vec<XmaSample>, count: usize)
    ensures
        final(samples)@ == old(samples)@ + Seq::new(count as nat, |i: int| silence()),
{
    let ghost before = samples@;
    let ghost all = Seq::new(count as nat, |i: int| silence());
    let mut done: usize = 0;
    assert(before + all.take(0) =~= before);
    while done < count
        invariant
            done <= count,
            all == Seq::new(count as nat, |i: int| silence()),
            samples@ == before + all.take(done as int),
        decreases count - done,
    {
        samples.push(XmaSample { current: None, overlap: None });
        assert(samples@ =~= before + all.take(done + 1));
        done += 1;
    }
    assert(all.take(done as int) =~= all);
}

fn mix_sample(
    channel: usize,
    index: usize,
    base: usize,
    present: usize,
    previous: &Vec<Option<usize>>,
) -> (sample: XmaSample)
    requires
        channel < previous.len(),
        index < XMA_FRAME_SAMPLES / 2,
        base + present <= usize::MAX,
    ensures
        sample == mixed_sample(
            channel as int,
            index as int,
            base as int,
            present as int,
            previous@,
        ),
{
    XmaSample {
        current: if channel < present {
            Some(XmaPoint { subframe: base + channel, index })
        } else {
            None
        },
        overlap: match previous[channel] {
            Some(subframe) => Some(XmaPoint { subframe, index: index + XMA_FRAME_SAMPLES / 2 }),
            None => None,
        },
    }
}

fn push_mixed(
    samples: &mut Vec<XmaSample>,
    channels: usize,
    base: usize,
    present: usize,
    previous: &Vec<Option<usize>>,
)
    requires
        channels == 1 || channels == 2,
        previous.len() == channels,
        base + present <= usize::MAX,
    ensures
        final(samples)@ == old(samples)@ + mixed(
            channels as int,
            base as int,
            present as int,
            previous@,
        ),
{
    let ghost before = samples@;
    let ghost all = mixed(channels as int, base as int, present as int, previous@);
    let total: usize = XMA_FRAME_SAMPLES / 2 * channels;
    let mut done: usize = 0;
    assert(before + all.take(0) =~= before);
    while done < total
        invariant
            channels == 1 || channels == 2,
            previous.len() == channels,
            base + present <= usize::MAX,
            total == XMA_FRAME_SAMPLES / 2 * channels,
            done <= total,
            all == mixed(channels as int, base as int, present as int, previous@),
            samples@ == before + all.take(done as int),
        decreases total - done,
    {
        let channel: usize = if channels == 1 {
            0
        } else {
            done % 2
        };
        let index: usize = if channels == 1 {
            done
        } else {
            done / 2
        };
        assert(done as int % channels as int == channel && done as int / channels as int == index);
        samples.push(mix_sample(channel, index, base, present, previous));
        assert(samples@ =~= before + all.take(done + 1));
        done += 1;
    }
    assert(all.take(done as int) =~= all);
}

fn read_subframe(length: usize, start: usize, bits: usize) -> (subframe: XmaSubframe)
    requires
        start <= length,
        2 <= bits <= 16,
    ensures
        subframe == subframe_at(length as int, start as int, bits),
        2 <= subframe.bits <= 16,
        subframe.count <= XMA_FRAME_SAMPLES,
        subframe.start + (if coefficient_bytes(subframe.bits) == 1 {
            subframe.count as int
        } else {
            2 * subframe.count
        }) <= length,
{
    let room: usize = length - start;
    let count: usize = if bits <= 8 {
        if room < XMA_FRAME_SAMPLES {
            room
        } else {
            XMA_FRAME_SAMPLES
        }
    } else {
        if room < 2 * XMA_FRAME_SAMPLES {
            room / 2
        } else {
            XMA_FRAME_SAMPLES
        }
    };
    assert(coefficient_bytes(bits) == (if bits <= 8 {
        1int
    } else {
        2
    }));
    XmaSubframe { start, bits, count }
}

/// All subframes lie inside the data.
pub open spec fn all_readable(data: Seq<u8>, subframes: Seq<XmaSubframe>) -> bool {
    forall|i: int| 0 <= i < subframes.len() ==> readable(data, #[trigger] subframes[i])
}

/// A stream while it is taken apart.
struct Reader {
    offset: usize,
    frames: usize,
    subframes: Vec<XmaSubframe>,
    previous: Vec<Option<usize>>,
    samples: Vec<XmaSample>,
}

impl Reader {
    spec fn state(&self, offset: int) -> XmaState {
        XmaState {
            offset,
            frames: self.frames as int,
            subframes: self.subframes@,
            previous: self.previous@,
            samples: self.samples@,
        }
    }

    /// Reads a frame with coefficients. Says whether it could be read, and
    /// whether the stream goes on behind it.
    fn read_frame(&mut self, data: &[u8], channels: usize, number: u8, scale: u8) -> (read: (
        bool,
        bool,
    ))
        requires
            channels == 1 || channels == 2,
            subframe_count(number),
            scale > 0,
            old(self).offset + XMA_FRAME_HEADER_SIZE <= data.len(),
            old(self).previous.len() == channels,
            old(self).frames < usize::MAX,
            all_readable(data@, old(self).subframes@),
        ensures
            match after_frame(
                data@.len() as int,
                channels as int,
                number,
                scale,
                old(self).state(old(self).offset as int),
            ) {
                None => !read.0,
                Some(next) => {
                    &&& read.0
                    &&& next == final(self).state(next.offset)
                    &&& read.1 <==> next.offset <= data@.len()
                    &&& read.1 ==> final(self).offset == next.offset
                    &&& !read.1 ==> final(self).offset == old(self).offset
                    &&& next.offset > old(self).offset
                    &&& final(self).frames == old(self).frames + 1
                    &&& final(self).previous.len() == channels
                    &&& all_readable(data@, final(self).subframes@)
                },
            },
    {
        let length: usize = data.len();
        let ghost start = self.state(self.offset as int);
        let ghost expected = after_frame(
            length as int,
            channels as int,
            number,
            scale,
            start,
        );
        let bits: usize = if scale < 2 {
            2
        } else if scale > 16 {
            16
        } else {
            scale as usize
        };
        let size: usize = if bits <= 8 {
            XMA_FRAME_SAMPLES
        } else {
            2 * XMA_FRAME_SAMPLES
        };
        assert(bits == coefficient_bits(scale));
        assert(size == subframe_size(bits));
        let present: usize = if (number as usize) < channels {
            number as usize
        } else {
            channels
        };
        assert(present == present_channels(channels as int, number));
        let first: usize = self.offset + XMA_FRAME_HEADER_SIZE;
        let base: usize = self.subframes.len();
        let ghost added = Seq::new(
            present as nat,
            |i: int| subframe_at(length as int, first + i * subframe_size(bits), bits),
        );
        let one: XmaSubframe = read_subframe(length, first, bits);
        assert(0 * size == 0 && 1 * size == size && 2 * size == size + size) by (nonlinear_arith);
        assert((present - 1) * size == (if present == 1 {
            0int
        } else {
            size as int
        }));
        assert(present * size == (if present == 1 {
            size as int
        } else {
            size + size
        }));
        self.subframes.push(one);
        if present == 2 {
            if length - first < size {
                return (false, false);
            }
            let two: XmaSubframe = read_subframe(length, first + size, bits);
            self.subframes.push(two);
            assert(added[1] == two);
        }
        assert(added[0] == one);
        assert(self.subframes@ =~= start.subframes + added);
        let total: usize = self.subframes.len();
        assert(total == base + present);
        if self.frames > 0 {
            push_mixed(&mut self.samples, channels, base, present, &self.previous);
        }
        let ghost previous = Seq::new(
            channels as nat,
            |i: int|
                if i < present {
                    Some((base + i) as usize)
                } else {
                    start.previous[i]
                },
        );
        self.previous.set(0, Some(base));
        if present == 2 {
            self.previous.set(1, Some(base + 1));
        }
        assert(self.previous@ =~= previous);
        self.frames = self.frames + 1;
        let goes_on: bool = if present == 1 {
            length - first >= size
        } else {
            length - first - size >= size
        };
        if goes_on {
            self.offset = if present == 1 {
                first + size
            } else {
                first + size + size
            };
        }
        (true, goes_on)
    }
}

/// Takes an XMA stream apart.
///
/// Each frame has a header of four bytes, whose highest is the number of its
/// subframes and whose next is the scale of its coefficients, and then a
/// subframe for each channel. A frame of scale zero is silent. A header
/// without subframes, or with more than 16, ends the stream.
pub fn decode_xma(xma_data: &[u8], num_channels: u16) -> (outcome: AppResult<XmaDecoding>)
    ensures
        match outcome {
            Ok(decoding) => {
                &&& taken_apart(xma_data@, num_channels as int) == Some(
                    (decoding.subframes@, decoding.samples@),
                )
                &&& decoding.data@ == in_order(xma_data@)
                &&& all_readable(decoding.data@, decoding.subframes@)
            },
            Err(error) => {
                &&& taken_apart(xma_data@, num_channels as int) is None
                &&& error.code == ReasonCode::RcAudioUnsupported
            },
        },
{
    if xma_data.len() == 0 {
        return unsupported("XMA data is empty");
    }
    let channels: usize = num_channels as usize;
    if channels != 1 && channels != 2 {
        return unsupported(&noted("XMA unsupported channel count: ", num_channels as u64, ""));
    }
    let data: Vec<u8> = put_in_order(xma_data);
    let length: usize = data.len();
    let mut previous: Vec<Option<usize>> = Vec::new();
    previous.push(None);
    if channels == 2 {
        previous.push(None);
    }
    let mut reader = Reader {
        offset: 0,
        frames: 0,
        subframes: Vec::new(),
        previous,
        samples: Vec::new(),
    };
    let ghost whole = walked(data@, channels as int, fresh(channels as int));
    let ghost mut place: int = 0;
    proof {
        assert(reader.previous@ =~= fresh(channels as int).previous);
        assert(reader.state(0) == fresh(channels as int));
    }
    let mut goes_on: bool = true;
    while goes_on && length - reader.offset >= XMA_FRAME_HEADER_SIZE
        invariant
            channels == 1 || channels == 2,
            channels == num_channels,
            data@ == in_order(xma_data@),
            xma_data@.len() > 0,
            length == data@.len(),
            whole == walked(data@, channels as int, fresh(channels as int)),
            place >= 0,
            whole == (if goes_on {
                walked(data@, channels as int, reader.state(place))
            } else {
                Some(reader.state(place))
            }),
            goes_on ==> reader.offset == place && place <= length,
            reader.offset <= length,
            reader.frames <= reader.offset || !goes_on,
            reader.previous.len() == channels,
            all_readable(data@, reader.subframes@),
        decreases length - reader.offset + (if goes_on {
            1int
        } else {
            0
        }),
    {
        let number: u8 = data[reader.offset + 3];
        let scale: u8 = data[reader.offset + 2];
        if number < 1 || number > 16 {
            goes_on = false;
        } else if scale == 0 {
            push_silence(&mut reader.samples, XMA_FRAME_SAMPLES * channels);
            reader.offset = reader.offset + XMA_FRAME_HEADER_SIZE;
            reader.frames = reader.frames + 1;
            proof {
                place = place + XMA_FRAME_HEADER_SIZE;
            }
        } else {
            let ghost expected = after_frame(
                length as int,
                channels as int,
                number,
                scale,
                reader.state(place),
            );
            let read: (bool, bool) = reader.read_frame(&data, channels, number, scale);
            if !read.0 {
                return unsupported("XMA data is truncated");
            }
            proof {
                place = expected->0.offset;
            }
            if reader.frames > XMA_FRAME_LIMIT || !read.1 {
                goes_on = false;
            }
        }
    }
    if reader.frames == 0 {
        return unsupported("XMA decoder produced no output");
    }
    push_mixed(&mut reader.samples, channels, 0, 0, &reader.previous);
    Ok(XmaDecoding { data, subframes: reader.subframes, samples: reader.samples })
}

/// In every whole word the byte that came first comes last; what makes no whole
/// word stays.
pub proof fn lemma_words_turned(bytes: Seq<u8>, word: int)
    requires
        0 <= word,
    ensures
        words_turned(bytes).len() == bytes.len(),
        4 * word + 4 <= bytes.len() ==> {
            &&& words_turned(bytes)[4 * word] == bytes[4 * word + 3]
            &&& words_turned(bytes)[4 * word + 1] == bytes[4 * word + 2]
            &&& words_turned(bytes)[4 * word + 2] == bytes[4 * word + 1]
            &&& words_turned(bytes)[4 * word + 3] == bytes[4 * word]
        },
        4 * word < bytes.len() < 4 * word + 4 ==> words_turned(bytes)[4 * word] == bytes[4 * word],
        4 * word + 1 < bytes.len() < 4 * word + 4 ==> words_turned(bytes)[4 * word + 1] == bytes[4
            * word + 1],
        4 * word + 2 < bytes.len() < 4 * word + 4 ==> words_turned(bytes)[4 * word + 2] == bytes[4
            * word + 2],
{
}

/// Words are turned only where that brings a count of subframes, one to
/// sixteen, to the end of the first word and none was there before.
pub proof fn lemma_put_in_order(bytes: Seq<u8>)
    requires
        bytes.len() >= 4,
    ensures
        1 <= bytes[3] <= 16 ==> in_order(bytes) == bytes,
        !(1 <= bytes[0] <= 16) ==> in_order(bytes) == bytes,
        1 <= bytes[0] <= 16 && !(1 <= bytes[3] <= 16) ==> in_order(bytes)[3] == bytes[0]
            && in_order(bytes) != bytes,
        1 <= bytes[0] <= 16 || 1 <= bytes[3] <= 16 ==> 1 <= in_order(bytes)[3] <= 16,
{
    lemma_words_turned(bytes, 0);
}

/// A coefficient of some bits is what is left over of them, from zero on in the
/// lower half of their range and below zero in the upper half.
pub proof fn lemma_sign_extended(raw: int, bits: int)
    requires
        1 <= bits,
        0 <= raw < two_to(bits),
    ensures
        two_to(bits) == 2 * two_to(bits - 1),
        -two_to(bits - 1) <= sign_extended(raw, bits) < two_to(bits - 1),
        raw < two_to(bits - 1) ==> sign_extended(raw, bits) == raw,
        raw >= two_to(bits - 1) ==> sign_extended(raw, bits) == raw - two_to(bits),
{
    let half = two_to(bits - 1);
    lemma_two_to_positive(bits - 1);
    let upper = raw / half;
    assert((raw < half ==> upper == 0) && (raw >= half ==> upper == 1)) by (nonlinear_arith)
        requires
            half >= 1,
            0 <= raw < 2 * half,
            upper == raw / half,
    ;
    assert(raw % (2 * half) == raw) by (nonlinear_arith)
        requires
            half >= 1,
            0 <= raw < 2 * half,
    ;
}

proof fn lemma_two_to_positive(bits: int)
    ensures
        two_to(bits) >= 1,
    decreases bits,
{
    if bits > 0 {
        lemma_two_to_positive(bits - 1);
    }
}

/// The number of bits of a coefficient is the scale, held between two and
/// sixteen; one byte holds up to eight bits, two hold more.
pub proof fn lemma_coefficient_bits(scale: u8)
    ensures
        2 <= coefficient_bits(scale) <= 16,
        2 <= scale <= 16 ==> coefficient_bits(scale) == scale,
        scale < 2 ==> coefficient_bits(scale) == 2,
        scale > 16 ==> coefficient_bits(scale) == 16,
        coefficient_bits(scale) <= 8 <==> coefficient_bytes(coefficient_bits(scale)) == 1,
        coefficient_bits(scale) > 8 <==> coefficient_bytes(coefficient_bits(scale)) == 2,
        subframe_size(coefficient_bits(scale)) == 256 || subframe_size(coefficient_bits(scale))
            == 512,
{
}

/// The point is one of a subframe that has been read: the first half of the
/// subframe for what is heard now, the second for what goes on sounding.
pub open spec fn points_inside(sample: XmaSample, subframes: int) -> bool {
    &&& sample.current matches Some(point) ==> point.subframe < subframes && point.index < 128
    &&& sample.overlap matches Some(point) ==> point.subframe < subframes && 128 <= point.index
        < 256
    &&& sample.current matches Some(now) ==> (sample.overlap matches Some(before) ==> {
        &&& before.subframe < now.subframe
        &&& before.index == now.index + 128
    })
}

/// What holds while a stream is read: every channel remembers a subframe that
/// was read for it, samples come in whole runs of half a subframe for every
/// channel, and each is made of points of subframes that were read.
pub open spec fn in_step(channels: int, state: XmaState) -> bool {
    &&& 0 <= state.offset
    &&& 0 <= state.frames
    &&& state.previous.len() == channels
    &&& state.subframes.len() <= usize::MAX
    &&& forall|c: int|
        0 <= c < channels ==> (#[trigger] state.previous[c] matches Some(subframe) ==> subframe
            < state.subframes.len())
    &&& state.samples.len() as int % (128 * channels) == 0
    &&& forall|i: int|
        0 <= i < state.samples.len() ==> points_inside(
            #[trigger] state.samples[i],
            state.subframes.len() as int,
        )
}

/// A frame with coefficients reads one subframe after another, as many as the
/// frame counts and there are channels; it keeps what holds while a stream is
/// read.
pub proof fn lemma_frame_in_step(
    length: int,
    channels: int,
    number: u8,
    scale: u8,
    state: XmaState,
)
    requires
        1 <= channels <= 2,
        in_step(channels, state),
        1 <= number,
        state.subframes.len() + 2 <= usize::MAX,
        after_frame(length, channels, number, scale, state) is Some,
    ensures
        ({
            let next = after_frame(length, channels, number, scale, state)->0;
            let read = next.subframes.len() - state.subframes.len();
            let size = subframe_size(coefficient_bits(scale));
            &&& in_step(channels, next)
            &&& next.frames == state.frames + 1
            &&& 1 <= read <= channels
            &&& read <= number
            &&& read == channels || read == number
            &&& next.offset == state.offset + 4 + read * size
            &&& next.subframes.take(state.subframes.len() as int) == state.subframes
            &&& forall|c: int|
                0 <= c < read ==> {
                    &&& #[trigger] next.previous[c] == Some((state.subframes.len() + c) as usize)
                    &&& next.subframes[state.subframes.len() + c].start == (state.offset + 4 + c
                        * size) as usize
                }
            &&& forall|c: int|
                read <= c < channels ==> #[trigger] next.previous[c] == state.previous[c]
            &&& next.samples.len() == state.samples.len() + (if state.frames > 0 {
                128 * channels
            } else {
                0
            })
        }),
{
    let next = after_frame(length, channels, number, scale, state)->0;
    let base = state.subframes.len() as int;
    let present = present_channels(channels, number);
    assert(next.subframes.len() == base + present);
    assert(next.subframes.take(base) =~= state.subframes);
    let more = mixed(channels, base, present, state.previous);
    assert(more.len() == 128 * channels);
    assert forall|i: int| 0 <= i < next.samples.len() implies points_inside(
        #[trigger] next.samples[i],
        next.subframes.len() as int,
    ) by {
        if i < state.samples.len() {
            assert(next.samples[i] == state.samples[i]);
        } else {
            let k = i - state.samples.len();
            assert(next.samples[i] == more[k]);
            lemma_turn(k, channels);
        }
    }
    let before = state.samples.len() as int;
    assert((before + 128 * channels) % (128 * channels) == before % (128 * channels))
        by (nonlinear_arith)
        requires
            channels >= 1,
            before >= 0,
    ;
}

proof fn lemma_turn(index: int, channels: int)
    requires
        1 <= channels <= 2,
        0 <= index < 128 * channels,
    ensures
        0 <= index % channels < channels,
        0 <= index / channels < 128,
{
    if channels == 1 {
        assert(index / 1 == index);
    } else {
        assert(0 <= index / 2 < 128);
    }
}

/// Channels take turns: sample `index` of a channel comes from its subframe of
/// the frame and from the one that it remembers, where it has them.
pub proof fn lemma_mixed_in_turn(
    channels: int,
    base: int,
    present: int,
    previous: Seq<Option<usize>>,
    channel: int,
    index: int,
)
    requires
        1 <= channels <= 2,
        0 <= channel < channels,
        0 <= index < 128,
        0 <= base,
        base + channels <= usize::MAX,
    ensures
        ({
            let sample = mixed(channels, base, present, previous)[index * channels + channel];
            &&& mixed(channels, base, present, previous).len() == 128 * channels
            &&& channel < present ==> sample.current == Some(
                XmaPoint { subframe: (base + channel) as usize, index: index as usize },
            )
            &&& channel >= present ==> sample.current is None
            &&& previous[channel] is None ==> sample.overlap is None
            &&& previous[channel] matches Some(subframe) ==> sample.overlap == Some(
                XmaPoint { subframe, index: (128 + index) as usize },
            )
        }),
{
    let at = index * channels + channel;
    assert(at % channels == channel && at / channels == index && 0 <= at < 128 * channels)
        by (nonlinear_arith)
        requires
            1 <= channels <= 2,
            0 <= channel < channels,
            0 <= index < 128,
            at == index * channels + channel,
    ;
}

/// A frame without coefficients is a whole frame of silence for every channel.
pub proof fn lemma_silence_in_step(channels: int, state: XmaState)
    requires
        1 <= channels <= 2,
        in_step(channels, state),
    ensures
        ({
            let next = after_silence(channels, state);
            &&& in_step(channels, next)
            &&& next.offset == state.offset + 4
            &&& next.frames == state.frames + 1
            &&& next.subframes == state.subframes
            &&& next.previous == state.previous
            &&& next.samples.len() == state.samples.len() + 256 * channels
            &&& next.samples.take(state.samples.len() as int) == state.samples
            &&& forall|i: int|
                state.samples.len() <= i < next.samples.len() ==> (#[trigger]
                next.samples[i]).current is None && next.samples[i].overlap is None
        }),
{
    let next = after_silence(channels, state);
    assert(next.samples.take(state.samples.len() as int) =~= state.samples);
    assert forall|i: int| 0 <= i < next.samples.len() implies points_inside(
        #[trigger] next.samples[i],
        next.subframes.len() as int,
    ) by {
        if i < state.samples.len() {
            assert(next.samples[i] == state.samples[i]);
        }
    }
    let before = state.samples.len() as int;
    assert((before + 256 * channels) % (128 * channels) == before % (128 * channels))
        by (nonlinear_arith)
        requires
            channels >= 1,
            before >= 0,
    ;
}

/// A coefficient is read as it was written, in one byte or in two, low byte
/// first, in as many bits as the subframe says; behind the last there is zero.
pub proof fn lemma_coefficient_reads_back(
    data: Seq<u8>,
    subframe: XmaSubframe,
    index: int,
    value: int,
    raw: int,
)
    requires
        readable(data, subframe),
        0 <= index,
        -two_to(subframe.bits - 1) <= value < two_to(subframe.bits - 1),
        raw == (if value < 0 {
            value + 2 * two_to(subframe.bits - 1)
        } else {
            value
        }),
        index < subframe.count && subframe.bits <= 8 ==> data[subframe.start + index] == raw,
        index < subframe.count && subframe.bits > 8 ==> data[subframe.start + 2 * index] + 0x100
            * data[subframe.start + 2 * index + 1] == raw,
    ensures
        index < subframe.count ==> coefficient(data, subframe, index) == value,
        index >= subframe.count ==> coefficient(data, subframe, index) == 0,
{
    let bits = subframe.bits as int;
    assert(two_to(bits) == 2 * two_to(bits - 1));
    if index < subframe.count {
        lemma_sign_extended(raw, bits);
    }
}

/// A subframe holds the coefficients of its kind, but only those that the stream
/// holds whole.
pub proof fn lemma_subframe_at(length: int, start: int, bits: usize)
    requires
        2 <= bits <= 16,
        0 <= start <= length <= usize::MAX,
    ensures
        ({
            let subframe = subframe_at(length, start, bits);
            let width: int = if bits <= 8 {
                1
            } else {
                2
            };
            &&& subframe.start == start
            &&& subframe.bits == bits
            &&& subframe.count <= 256
            &&& start + width * subframe.count <= length
            &&& subframe.count < 256 ==> start + width * (subframe.count + 1) > length
        }),
{
    assert(bits <= 8 ==> coefficient_bytes(bits) == 1);
    assert(bits > 8 ==> coefficient_bytes(bits) == 2);
    let width = coefficient_bytes(bits);
    let end = if start + 256 * width < length {
        start + 256 * width
    } else {
        length
    };
    if bits <= 8 {
        assert((end - start) / 1 == end - start);
    }
}

/// A stream is read frame by frame: the fourth byte of a frame counts its
/// subframes, from 1 to 16, and any other number ends the stream; the third
/// byte is its scale, and zero makes the frame a silent one.
pub proof fn lemma_walked_on(data: Seq<u8>, channels: int, state: XmaState)
    requires
        1 <= channels <= 2,
        0 <= state.offset,
    ensures
        state.offset + 4 > data.len() ==> walked(data, channels, state) == Some(state),
        state.offset + 4 <= data.len() ==> {
            let number = data[state.offset + 3];
            let scale = data[state.offset + 2];
            let next = after_frame(data.len() as int, channels, number, scale, state);
            &&& number == 0 || number > 16 ==> walked(data, channels, state) == Some(state)
            &&& 1 <= number <= 16 && scale == 0 ==> walked(data, channels, state) == walked(
                data,
                channels,
                after_silence(channels, state),
            )
            &&& 1 <= number <= 16 && scale != 0 && next is None ==> walked(
                data,
                channels,
                state,
            ) is None
            &&& 1 <= number <= 16 && scale != 0 && next is Some && next->0.frames <= 1024
                ==> walked(data, channels, state) == walked(data, channels, next->0)
            &&& 1 <= number <= 16 && scale != 0 && next is Some && next->0.frames > 1024
                ==> walked(data, channels, state) == next
        },
{
}

proof fn lemma_walked_in_step(data: Seq<u8>, channels: int, state: XmaState)
    requires
        1 <= channels <= 2,
        in_step(channels, state),
        state.subframes.len() <= 2 * state.frames,
        state.subframes.len() <= 2048,
        data.len() <= usize::MAX,
    ensures
        walked(data, channels, state) matches Some(end) ==> {
            &&& in_step(channels, end)
            &&& end.frames >= state.frames
            &&& end.subframes.len() <= 2050
        },
    decreases
            (if data.len() > state.offset {
                data.len() - state.offset
            } else {
                0
            }),
{
    if state.offset + XMA_FRAME_HEADER_SIZE <= data.len() {
        let number = data[state.offset + 3];
        let scale = data[state.offset + 2];
        if subframe_count(number) {
            if scale == 0 {
                lemma_silence_in_step(channels, state);
                lemma_walked_in_step(data, channels, after_silence(channels, state));
            } else if let Some(next) = after_frame(
                data.len() as int,
                channels,
                number,
                scale,
                state,
            ) {
                lemma_frame_in_step(data.len() as int, channels, number, scale, state);
                let read = next.subframes.len() - state.subframes.len();
                let size = subframe_size(coefficient_bits(scale));
                assert(read * size >= 0) by (nonlinear_arith)
                    requires
                        read >= 1,
                        size >= 0,
                ;
                if next.frames <= XMA_FRAME_LIMIT {
                    lemma_walked_in_step(data, channels, next);
                }
            }
        }
    }
}

/// What is taken apart are whole halves of frames, for all channels alike, and
/// every sample is made of coefficients of the subframes that were read: one of
/// the first half of a subframe and one of the second half of an earlier one.
pub proof fn lemma_taken_apart(bytes: Seq<u8>, channels: int)
    requires
        bytes.len() <= usize::MAX,
    ensures
        taken_apart(bytes, channels) matches Some((subframes, samples)) ==> {
            &&& channels == 1 || channels == 2
            &&& samples.len() >= 128 * channels
            &&& samples.len() as int % (128 * channels) == 0
            &&& forall|i: int|
                0 <= i < samples.len() ==> points_inside(
                    #[trigger] samples[i],
                    subframes.len() as int,
                )
            &&& forall|i: int|
                samples.len() - 128 * channels <= i < samples.len() ==> (#[trigger]
                samples[i]).current is None
        },
        bytes.len() == 0 || channels < 1 || channels > 2 ==> taken_apart(bytes, channels) is None,
{
    if bytes.len() > 0 && (channels == 1 || channels == 2) {
        let data = in_order(bytes);
        let start = fresh(channels);
        assert(in_step(channels, start));
        lemma_walked_in_step(data, channels, start);
        if let Some(end) = walked(data, channels, start) {
            let tail = mixed(channels, 0, 0, end.previous);
            let samples = end.samples + tail;
            assert(tail.len() == 128 * channels);
            assert forall|i: int| 0 <= i < samples.len() implies points_inside(
                #[trigger] samples[i],
                end.subframes.len() as int,
            ) by {
                if i < end.samples.len() {
                    assert(samples[i] == end.samples[i]);
                } else {
                    let k = i - end.samples.len();
                    assert(samples[i] == tail[k]);
                    let channel = k % channels;
                    let index = k / channels;
                    assert(0 <= channel < channels && 0 <= index < 128);
                    assert(tail[k] == mixed_sample(channel, index, 0, 0, end.previous));
                    assert(end.previous[channel] matches Some(subframe) ==> subframe
                        < end.subframes.len());
                }
            }
            assert forall|i: int|
                samples.len() - 128 * channels <= i < samples.len() implies (#[trigger]
            samples[i]).current is None by {
                let k = i - end.samples.len();
                assert(samples[i] == tail[k]);
            }
        }
    }
}

} // verus!
