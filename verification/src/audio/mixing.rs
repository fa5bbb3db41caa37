//! How channels are mapped to other channels, and frames to other rates.
use vstd::prelude::*;

verus! {

/// A part of an output channel: a source channel, and its weight as a
/// fraction.
#[derive(Debug, Clone, Copy, PartialEq, Eq, Structural)]
pub struct MixTerm {
    pub source: usize,
    pub numerator: usize,
    pub denominator: usize,
}

/// A source channel with all its weight.
pub open spec fn all_of(source: int) -> Seq<MixTerm> {
    seq![MixTerm { source: source as usize, numerator: 1, denominator: 1 }]
}

/// Half of each of two source channels.
pub open spec fn halves(first: int, second: int) -> Seq<MixTerm> {
    seq![
        MixTerm { source: first as usize, numerator: 1, denominator: 2 },
        MixTerm { source: second as usize, numerator: 1, denominator: 2 },
    ]
}

/// A front channel, half of the centre, and three tenths of the low
/// frequencies.
pub open spec fn front_with_centre(front: int) -> Seq<MixTerm> {
    seq![
        MixTerm { source: front as usize, numerator: 1, denominator: 1 },
        MixTerm { source: 2, numerator: 1, denominator: 2 },
        MixTerm { source: 3, numerator: 3, denominator: 10 },
    ]
}

/// What an output channel is made of, by the number of source channels and of
/// output channels. Four channels or less are front left, front right, rear
/// left and rear right; six are front left and right, centre, low frequencies,
/// rear left and right; eight have the sides besides.
pub open spec fn terms_of(sources: int, channel: int, outputs: int) -> Seq<MixTerm> {
    if sources == 1 {
        all_of(0)
    } else if sources == 2 && outputs == 1 {
        halves(0, 1)
    } else if sources == 2 && outputs == 6 {
        if channel == 0 || channel == 2 {
            all_of(0)
        } else if channel == 1 {
            all_of(1)
        } else {
            Seq::empty()
        }
    } else if sources == 2 && outputs == 8 {
        if channel == 0 || channel == 2 {
            all_of(0)
        } else if channel == 1 || channel == 3 {
            all_of(1)
        } else {
            Seq::empty()
        }
    } else if sources == 2 {
        all_of(
            if channel < 1 {
                channel
            } else {
                1
            },
        )
    } else if outputs == 1 {
        Seq::new(
            sources as nat,
            |i: int|
                MixTerm { source: i as usize, numerator: 1, denominator: sources as usize },
        )
    } else if (sources == 6 || sources == 8) && outputs == 2 {
        if channel == 0 || channel == 1 {
            front_with_centre(channel)
        } else {
            Seq::empty()
        }
    } else if sources == 6 && outputs == 8 {
        if channel <= 3 {
            all_of(channel)
        } else if channel == 4 || channel == 6 {
            all_of(4)
        } else if channel == 5 || channel == 7 {
            all_of(5)
        } else {
            Seq::empty()
        }
    } else if sources == 8 && outputs == 6 {
        if channel <= 3 {
            all_of(channel)
        } else if channel == 4 {
            halves(4, 6)
        } else if channel == 5 {
            halves(5, 7)
        } else {
            Seq::empty()
        }
    } else if channel < sources {
        all_of(channel)
    } else {
        Seq::empty()
    }
}

fn whole(source: usize) -> (terms: Vec<MixTerm>)
    ensures
        terms@ == all_of(source as int),
{
    let mut terms: Vec<MixTerm> = Vec::new();
    terms.push(MixTerm { source, numerator: 1, denominator: 1 });
    assert(terms@ =~= all_of(source as int));
    terms
}

fn half_each(first: usize, second: usize) -> (terms: Vec<MixTerm>)
    ensures
        terms@ == halves(first as int, second as int),
{
    let mut terms: Vec<MixTerm> = Vec::new();
    terms.push(MixTerm { source: first, numerator: 1, denominator: 2 });
    terms.push(MixTerm { source: second, numerator: 1, denominator: 2 });
    assert(terms@ =~= halves(first as int, second as int));
    terms
}

fn with_centre(front: usize) -> (terms: Vec<MixTerm>)
    ensures
        terms@ == front_with_centre(front as int),
{
    let mut terms: Vec<MixTerm> = Vec::new();
    terms.push(MixTerm { source: front, numerator: 1, denominator: 1 });
    terms.push(MixTerm { source: 2, numerator: 1, denominator: 2 });
    terms.push(MixTerm { source: 3, numerator: 3, denominator: 10 });
    assert(terms@ =~= front_with_centre(front as int));
    terms
}

fn average(sources: usize) -> (terms: Vec<MixTerm>)
    ensures
        terms@ == Seq::new(
            sources as nat,
            |i: int| MixTerm { source: i as usize, numerator: 1, denominator: sources },
        ),
{
    let ghost all = Seq::new(
        sources as nat,
        |i: int| MixTerm { source: i as usize, numerator: 1, denominator: sources },
    );
    let mut terms: Vec<MixTerm> = Vec::new();
    let mut i: usize = 0;
    while i < sources
        invariant
            i <= sources,
            all == Seq::new(
                sources as nat,
                |k: int| MixTerm { source: k as usize, numerator: 1, denominator: sources },
            ),
            terms@ == all.take(i as int),
        decreases sources - i,
    {
        terms.push(MixTerm { source: i, numerator: 1, denominator: sources });
        assert(terms@ =~= all.take(i + 1));
        i += 1;
    }
    assert(all.take(i as int) =~= all);
    terms
}

/// What an output channel is made of.
pub fn remap_channel(source_channels: usize, channel: usize, output_channels: usize) -> (terms: Vec<
    MixTerm,
>)
    ensures
        terms@ == terms_of(source_channels as int, channel as int, output_channels as int),
{
    match (source_channels, output_channels) {
        (1, _) => whole(0),
        (2, 1) => half_each(0, 1),
        (2, 6) => match channel {
            0 | 2 => whole(0),
            1 => whole(1),
            _ => Vec::new(),
        },
        (2, 8) => match channel {
            0 | 2 => whole(0),
            1 | 3 => whole(1),
            _ => Vec::new(),
        },
        (2, _) => whole(
            if channel < 1 {
                channel
            } else {
                1
            },
        ),
        (_, 1) => average(source_channels),
        (6, 2) | (8, 2) => match channel {
            0 => with_centre(0),
            1 => with_centre(1),
            _ => Vec::new(),
        },
        (6, 8) => match channel {
            0 | 1 | 2 | 3 => whole(channel),
            4 | 6 => whole(4),
            5 | 7 => whole(5),
            _ => Vec::new(),
        },
        (8, 6) => match channel {
            0 | 1 | 2 | 3 => whole(channel),
            4 => half_each(4, 6),
            5 => half_each(5, 7),
            _ => Vec::new(),
        },
        _ => if channel < source_channels {
            whole(channel)
        } else {
            Vec::new()
        },
    }
}

/// Every part of an output channel is one of the source channels.
pub proof fn lemma_terms_have_sources(sources: int, channel: int, outputs: int)
    requires
        1 <= sources <= usize::MAX,
        0 <= channel < outputs,
    ensures
        forall|i: int|
            0 <= i < terms_of(sources, channel, outputs).len() ==> (#[trigger] terms_of(
                sources,
                channel,
                outputs,
            )[i]).source < sources,
{
}

/// The frames that sound has at another rate: in proportion, and at least one.
pub open spec fn frames_at_rate(frames: int, from: int, to: int) -> int {
    if from == to {
        frames
    } else if frames * to / from < 1 {
        1
    } else {
        frames * to / from
    }
}

/// The frames that sound has at another rate; none where they are too many to
/// count, or where there is no rate to come from.
pub fn resampled_frames(source_frames: usize, source_rate: u32, dest_rate: u32) -> (frames: Option<
    usize,
>)
    ensures
        match frames {
            Some(count) => count == frames_at_rate(
                source_frames as int,
                source_rate as int,
                dest_rate as int,
            ) && (source_rate > 0 || source_rate == dest_rate),
            None => source_rate == 0 && dest_rate != 0 || source_rate > 0 && frames_at_rate(
                source_frames as int,
                source_rate as int,
                dest_rate as int,
            ) > usize::MAX,
        },
{
    if source_rate == dest_rate {
        return Some(source_frames);
    }
    if source_rate == 0 {
        return None;
    }
    assert(source_frames * dest_rate <= 0x1_0000_0000_0000_0000 * 0x1_0000_0000)
        by (nonlinear_arith)
        requires
            0 <= source_frames <= 0x1_0000_0000_0000_0000,
            0 <= dest_rate <= 0x1_0000_0000,
    ;
    let scaled: u128 = source_frames as u128 * dest_rate as u128 / source_rate as u128;
    if scaled < 1 {
        Some(1)
    } else if scaled > usize::MAX as u128 {
        None
    } else {
        Some(scaled as usize)
    }
}

/// Where a frame at the new rate lies at the old one: between two frames, and
/// how far behind the first, as a fraction of the new rate.
#[derive(Debug, Clone, Copy, PartialEq, Eq, Structural)]
pub struct FramePosition {
    pub first: usize,
    pub second: usize,
    pub beyond: u128,
}

/// Where a frame at the new rate lies at the old one. The last frame stands
/// for all behind it.
pub open spec fn position_at_rate(frame: int, frames: int, from: int, to: int) -> FramePosition {
    let exact = frame * from / to;
    let first = if exact < frames - 1 {
        exact
    } else {
        frames - 1
    };
    FramePosition {
        first: first as usize,
        second: (if first + 1 < frames - 1 {
            first + 1
        } else {
            frames - 1
        }) as usize,
        beyond: (frame * from - first * to) as u128,
    }
}

/// Where a frame at the new rate lies at the old one.
pub fn frame_position(frame: usize, source_frames: usize, source_rate: u32, dest_rate: u32) -> (
position: FramePosition)
    requires
        source_frames >= 1,
        dest_rate >= 1,
    ensures
        position == position_at_rate(
            frame as int,
            source_frames as int,
            source_rate as int,
            dest_rate as int,
        ),
{
    let last: usize = source_frames - 1;
    assert(0 <= frame * source_rate <= 0x1_0000_0000_0000_0000 * 0x1_0000_0000)
        by (nonlinear_arith)
        requires
            0 <= frame <= 0x1_0000_0000_0000_0000,
            0 <= source_rate <= 0x1_0000_0000,
    ;
    let place: u128 = frame as u128 * source_rate as u128;
    let exact: u128 = place / dest_rate as u128;
    let first: usize = if exact < last as u128 {
        exact as usize
    } else {
        last
    };
    let second: usize = if first < last {
        first + 1
    } else {
        last
    };
    assert(0 <= first * dest_rate <= place) by (nonlinear_arith)
        requires
            0 <= first <= exact,
            exact == place as int / dest_rate as int,
            dest_rate >= 1,
            place >= 0,
    ;
    FramePosition { first, second, beyond: place - first as u128 * dest_rate as u128 }
}

/// Every weight is more than nothing and at most the whole.
pub proof fn lemma_weights_are_parts(sources: int, channel: int, outputs: int)
    requires
        1 <= sources <= usize::MAX,
        0 <= channel < outputs,
    ensures
        forall|i: int|
            0 <= i < terms_of(sources, channel, outputs).len() ==> 0 < (#[trigger] terms_of(
                sources,
                channel,
                outputs,
            )[i]).numerator <= terms_of(sources, channel, outputs)[i].denominator,
{
}

/// `term` is the whole of a source.
pub open spec fn is_whole(terms: Seq<MixTerm>, source: int) -> bool {
    &&& terms.len() == 1
    &&& terms[0].source == source
    &&& terms[0].numerator == terms[0].denominator
}

/// As many channels come out as they went in; a single channel goes to every
/// output; and a single output hears all channels with equal weights that make
/// a whole.
pub proof fn lemma_plain_mixes(sources: int, channel: int, outputs: int)
    requires
        1 <= sources <= usize::MAX,
        0 <= channel < outputs,
    ensures
        sources == outputs ==> is_whole(terms_of(sources, channel, outputs), channel),
        sources == 1 ==> is_whole(terms_of(sources, channel, outputs), 0),
        outputs == 1 ==> {
            let terms = terms_of(sources, channel, outputs);
            &&& terms.len() == sources
            &&& forall|i: int|
                0 <= i < sources ==> (#[trigger] terms[i]).source == i && terms[i].numerator == 1
                    && terms[i].denominator == sources
        },
        sources == 2 && outputs == 2 || sources > 2 && outputs > 2 && channel < 4 && channel
            < sources ==> is_whole(terms_of(sources, channel, outputs), channel),
{
}

/// The channel on the other side: front, side and back left and right are
/// neighbours, and the centre and the low frequencies have no side.
pub open spec fn other_side(channel: int) -> int {
    if channel == 2 || channel == 3 {
        channel
    } else if channel % 2 == 0 {
        channel + 1
    } else {
        channel - 1
    }
}

/// Between two, six and eight channels the sides are treated alike, apart from
/// two channels that are spread to more: an output on the other side hears the
/// channels on the other side, with the same weights.
pub proof fn lemma_sides_alike(sources: int, channel: int, outputs: int)
    requires
        sources == 6 || sources == 8,
        outputs == 2 || outputs == 6 || outputs == 8,
        0 <= channel < outputs,
        outputs == 2 ==> channel < 2,
    ensures
        ({
            let here = terms_of(sources, channel, outputs);
            let there = terms_of(sources, other_side(channel), outputs);
            &&& here.len() == there.len()
            &&& forall|i: int|
                0 <= i < here.len() ==> {
                    &&& (#[trigger] there[i]).source == other_side(here[i].source as int)
                    &&& there[i].numerator == here[i].numerator
                    &&& there[i].denominator == here[i].denominator
                }
        }),
{
}

/// Two channels from six or eight: each hears its own front channel whole, half
/// of the centre and three tenths of the low frequencies.
pub proof fn lemma_folded_to_two(sources: int, channel: int)
    requires
        sources == 6 || sources == 8,
        channel == 0 || channel == 1,
    ensures
        ({
            let terms = terms_of(sources, channel, 2);
            &&& is_whole(terms.take(1), channel)
            &&& terms.len() == 3
            &&& terms[1].source == 2 && 2 * terms[1].numerator == terms[1].denominator
            &&& terms[2].source == 3 && 10 * terms[2].numerator == 3 * terms[2].denominator
        }),
{
}

/// Six channels spread to eight and folded back are the same six channels:
/// each of them is heard through sources that hold it whole, with weights that
/// make a whole.
pub proof fn lemma_six_through_eight(channel: int)
    requires
        0 <= channel < 6,
    ensures
        ({
            let folded = terms_of(8, channel, 6);
            &&& folded.len() == 1 || folded.len() == 2
            &&& forall|i: int|
                0 <= i < folded.len() ==> {
                    &&& is_whole(terms_of(6, (#[trigger] folded[i]).source as int, 8), channel)
                    &&& folded.len() * folded[i].numerator == folded[i].denominator
                }
            &&& folded.len() == 2 ==> folded[0].source != folded[1].source
        }),
{
}

/// Two channels spread to six or eight keep their sides in front; the centre of
/// six hears the left one, the third and fourth of eight the left and the right
/// one, and the rest is silent.
pub proof fn lemma_two_spread(channel: int, outputs: int)
    requires
        outputs == 6 || outputs == 8,
        0 <= channel < outputs,
    ensures
        channel < 2 ==> is_whole(terms_of(2, channel, outputs), channel),
        channel == 2 ==> is_whole(terms_of(2, channel, outputs), 0),
        channel == 3 && outputs == 8 ==> is_whole(terms_of(2, channel, outputs), 1),
        channel == 3 && outputs == 6 || channel > 3 ==> terms_of(2, channel, outputs).len() == 0,
{
}

/// The frames at another rate last as long as the frames did, less than one
/// frame being lost, but there is one frame at least. At the same rate there
/// are as many.
pub proof fn lemma_frames_last_as_long(frames: int, from: int, to: int)
    requires
        0 <= frames,
        0 < from,
        0 <= to,
    ensures
        from == to ==> frames_at_rate(frames, from, to) == frames,
        from != to ==> frames_at_rate(frames, from, to) >= 1,
        frames * to >= from ==> frames * to - from < frames_at_rate(frames, from, to) * from
            <= frames * to,
        frames * to < from && from != to ==> frames_at_rate(frames, from, to) == 1,
{
    let wanted = frames * to;
    assert(0 <= wanted) by (nonlinear_arith)
        requires
            0 <= frames,
            0 <= to,
            wanted == frames * to,
    ;
    let count = wanted / from;
    assert(count * from <= wanted < count * from + from && (wanted >= from ==> count >= 1) && (wanted
        < from ==> count == 0)) by (nonlinear_arith)
        requires
            0 < from,
            0 <= wanted,
            count == wanted / from,
    ;
    if from == to {
        assert(frames * from == frames * to);
    }
}

/// A frame of the output lies between two neighbouring frames of the source,
/// inside the source; the two and the part beyond the first give its time
/// exactly. The first frame is the first of the source, and at the same rate
/// each frame is its own.
pub proof fn lemma_position_in_time(frame: int, frames: int, from: int, to: int)
    requires
        0 <= frame,
        1 <= frames <= usize::MAX,
        0 <= from <= u32::MAX,
        1 <= to <= u32::MAX,
        frame <= usize::MAX,
    ensures
        ({
            let position = position_at_rate(frame, frames, from, to);
            &&& position.first < frames
            &&& position.first <= position.second <= position.first + 1
            &&& position.second < frames
            &&& position.first + 1 < frames ==> position.second == position.first + 1
            &&& position.first * to + position.beyond == frame * from
            &&& position.first + 1 < frames ==> position.beyond < to
            &&& frame == 0 ==> position.first == 0 && position.beyond == 0
            &&& from == to && frame < frames ==> position.first == frame && position.beyond == 0
        }),
{
    let time = frame * from;
    let exact = time / to;
    assert(0 <= time <= usize::MAX * u32::MAX) by (nonlinear_arith)
        requires
            0 <= frame <= usize::MAX,
            0 <= from <= u32::MAX,
            time == frame * from,
    ;
    assert(0 <= exact && exact * to <= time < exact * to + to) by (nonlinear_arith)
        requires
            0 <= time,
            1 <= to,
            exact == time / to,
    ;
    let first = if exact < frames - 1 {
        exact
    } else {
        frames - 1
    };
    assert(0 <= first * to <= exact * to) by (nonlinear_arith)
        requires
            0 <= first <= exact,
            1 <= to,
    ;
    if frame == 0 {
        assert(time == 0) by (nonlinear_arith)
            requires
                time == frame * from,
                frame == 0,
        ;
        assert(exact == 0) by (nonlinear_arith)
            requires
                exact * to <= time,
                time == 0,
                1 <= to,
                0 <= exact,
        ;
        assert(first * to == 0) by (nonlinear_arith)
            requires
                first == 0,
        ;
    }
    if from == to && frame < frames {
        assert(exact == frame) by (nonlinear_arith)
            requires
                exact * to <= frame * to < exact * to + to,
                1 <= to,
        ;
    }
}

} // verus!
