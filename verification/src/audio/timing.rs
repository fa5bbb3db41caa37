//! When buffers end, and how late sound is heard.
use vstd::prelude::*;

verus! {

// ---------------------------------------------------------------------------
// Latency
// ---------------------------------------------------------------------------

/// The milliseconds that `frames` last at `rate` frames a second, rounded to
/// the nearest, a half upwards.
pub open spec fn rounded_ms(frames: int, rate: int) -> int {
    (2000 * frames + rate) / (2 * rate)
}

/// The milliseconds that the frames last; nothing lasts no time, and anything
/// lasts more than `limit` where no frame is ever played.
pub open spec fn limited_ms(frames: int, rate: int, limit: int) -> int {
    if frames == 0 {
        0
    } else if rate == 0 || rounded_ms(frames, rate) > limit {
        limit
    } else {
        rounded_ms(frames, rate)
    }
}

/// The milliseconds that the frames last, at most `limit`.
pub fn duration_ms(sample_rate: u32, frames: usize, limit: u32) -> (milliseconds: u32)
    ensures
        milliseconds == limited_ms(frames as int, sample_rate as int, limit as int),
{
    if frames == 0 {
        return 0;
    }
    if sample_rate == 0 {
        return limit;
    }
    let rate: u128 = sample_rate as u128;
    let rounded: u128 = (2000 * frames as u128 + rate) / (2 * rate);
    if rounded > limit as u128 {
        limit
    } else {
        rounded as u32
    }
}

/// The latency of a stream: what its buffer lasts and ten milliseconds, at
/// most 50 in all.
pub open spec fn latency_ms(frames: int, rate: int) -> int {
    if limited_ms(frames, rate, 50) + 10 > 50 {
        50
    } else {
        limited_ms(frames, rate, 50) + 10
    }
}

/// The latency of a stream with `buffered_frames` in its buffer.
pub fn measure_latency_ms(sample_rate: u32, buffered_frames: usize) -> (milliseconds: u32)
    ensures
        milliseconds == latency_ms(buffered_frames as int, sample_rate as int),
        10 <= milliseconds <= 50,
{
    let buffered: u32 = duration_ms(sample_rate, buffered_frames, 50);
    proof {
        if sample_rate > 0 {
            assert(rounded_ms(buffered_frames as int, sample_rate as int) >= 0)
                by (nonlinear_arith)
                requires
                    rounded_ms(buffered_frames as int, sample_rate as int) == (2000
                        * buffered_frames + sample_rate) / (2 * sample_rate),
                    sample_rate > 0,
                    buffered_frames >= 0,
            ;
        }
    }
    if buffered + 10 > 50 {
        50
    } else {
        buffered + 10
    }
}

// ---------------------------------------------------------------------------
// The ends of buffers
// ---------------------------------------------------------------------------

/// The frames of the first `count` buffers.
pub open spec fn frames_of(buffers: Seq<(usize, String)>, count: int) -> int
    decreases count,
{
    if count <= 0 {
        0
    } else {
        frames_of(buffers, count - 1) + buffers[count - 1].0
    }
}

/// The ends of the first `count` buffers that lie within the rendered frames:
/// the frame, and the tag of the buffer.
pub open spec fn ends_of(buffers: Seq<(usize, String)>, total: int, count: int) -> Seq<
    (int, Seq<char>),
>
    decreases count,
{
    if count <= 0 {
        Seq::empty()
    } else if frames_of(buffers, count) <= total {
        ends_of(buffers, total, count - 1).push(
            (frames_of(buffers, count), buffers[count - 1].1@),
        )
    } else {
        ends_of(buffers, total, count - 1)
    }
}

/// A list of frames and tags, as it reads.
pub open spec fn as_ends(list: Seq<(usize, String)>) -> Seq<(int, Seq<char>)> {
    list.map_values(|item: (usize, String)| (item.0 as int, item.1@))
}

proof fn lemma_frames_grow(buffers: Seq<(usize, String)>, first: int, count: int)
    requires
        0 <= first <= count <= buffers.len(),
    ensures
        frames_of(buffers, first) <= frames_of(buffers, count),
    decreases count,
{
    if first < count {
        lemma_frames_grow(buffers, first, count - 1);
    }
}

/// The ends of buffers are called in the order of their frames, and none lies
/// behind what was rendered.
pub proof fn lemma_ends_in_order(buffers: Seq<(usize, String)>, total: int, count: int)
    requires
        0 <= count <= buffers.len(),
    ensures
        ({
            let ends = ends_of(buffers, total, count);
            &&& forall|i: int|
                0 <= i < ends.len() ==> (#[trigger] ends[i]).0 <= total && ends[i].0 <= frames_of(
                    buffers,
                    count,
                )
            &&& forall|i: int, j: int|
                0 <= i <= j < ends.len() ==> (#[trigger] ends[i]).0 <= (#[trigger] ends[j]).0
        }),
    decreases count,
{
    if count > 0 {
        lemma_ends_in_order(buffers, total, count - 1);
        let sooner = ends_of(buffers, total, count - 1);
        let ends = ends_of(buffers, total, count);
        assert forall|i: int, j: int| 0 <= i <= j < ends.len() implies (#[trigger] ends[i]).0 <= (
        #[trigger] ends[j]).0 by {
            if j < sooner.len() {
                assert(sooner[i].0 <= sooner[j].0);
            } else if i < sooner.len() {
                assert(sooner[i].0 <= frames_of(buffers, count - 1));
            }
        }
        assert forall|i: int| 0 <= i < ends.len() implies (#[trigger] ends[i]).0 <= total
            && ends[i].0 <= frames_of(buffers, count) by {
            if i < sooner.len() {
                assert(sooner[i].0 <= frames_of(buffers, count - 1));
            }
        }
    }
}

/// The buffers whose end is heard while `total_render_frames` are rendered,
/// each with the frame at which it ends.
pub fn calculate_buffer_callbacks(
    buffer_sizes_frames: &[(usize, String)],
    total_render_frames: usize,
) -> (callbacks: Vec<(usize, String)>)
    requires
        frames_of(buffer_sizes_frames@, buffer_sizes_frames@.len() as int) <= usize::MAX,
    ensures
        as_ends(callbacks@) == ends_of(
            buffer_sizes_frames@,
            total_render_frames as int,
            buffer_sizes_frames@.len() as int,
        ),
{
    let ghost all = buffer_sizes_frames@;
    let mut callbacks: Vec<(usize, String)> = Vec::new();
    let mut accumulated: usize = 0;
    let mut i: usize = 0;
    assert(as_ends(callbacks@) =~= Seq::<(int, Seq<char>)>::empty());
    while i < buffer_sizes_frames.len()
        invariant
            i <= buffer_sizes_frames.len(),
            all == buffer_sizes_frames@,
            frames_of(all, all.len() as int) <= usize::MAX,
            accumulated == frames_of(all, i as int),
            as_ends(callbacks@) == ends_of(all, total_render_frames as int, i as int),
        decreases buffer_sizes_frames.len() - i,
    {
        proof {
            lemma_frames_grow(all, i + 1, all.len() as int);
        }
        accumulated = accumulated + buffer_sizes_frames[i].0;
        let ghost before = as_ends(callbacks@);
        if accumulated <= total_render_frames {
            callbacks.push((accumulated, buffer_sizes_frames[i].1.clone()));
            assert(as_ends(callbacks@) =~= before.push((accumulated as int, all[i as int].1@)));
        }
        i += 1;
    }
    callbacks
}

/// A time in milliseconds is the nearest to that of the frames, half being
/// rounded up; whole seconds are exact, and more frames never take less time.
pub proof fn lemma_rounded_ms(frames: int, more: int, rate: int, seconds: int)
    requires
        0 <= frames <= more,
        0 < rate,
        0 <= seconds,
    ensures
        2000 * frames - rate < 2 * rate * rounded_ms(frames, rate) <= 2000 * frames + rate,
        rounded_ms(frames, rate) <= rounded_ms(more, rate),
        rounded_ms(seconds * rate, rate) == 1000 * seconds,
{
    let time = rounded_ms(frames, rate);
    let later = rounded_ms(more, rate);
    assert(2000 * frames - rate < 2 * rate * time <= 2000 * frames + rate) by (nonlinear_arith)
        requires
            0 < rate,
            time == (2000 * frames + rate) / (2 * rate),
    ;
    assert(time <= later) by (nonlinear_arith)
        requires
            0 < rate,
            0 <= frames <= more,
            time == (2000 * frames + rate) / (2 * rate),
            later == (2000 * more + rate) / (2 * rate),
    ;
    let whole = rounded_ms(seconds * rate, rate);
    assert(whole == 1000 * seconds) by (nonlinear_arith)
        requires
            0 < rate,
            whole == (2000 * (seconds * rate) + rate) / (2 * rate),
    ;
}

/// A limited time is never above the limit, is the time itself where that is
/// not above it, and is nothing where there are no frames. Without a rate any
/// frames take as long as the limit.
pub proof fn lemma_limited_ms(frames: int, rate: int, limit: int)
    requires
        0 <= frames,
        0 <= rate,
        0 <= limit,
    ensures
        0 <= limited_ms(frames, rate, limit) <= limit,
        frames == 0 ==> limited_ms(frames, rate, limit) == 0,
        frames > 0 && rate == 0 ==> limited_ms(frames, rate, limit) == limit,
        rate > 0 && rounded_ms(frames, rate) <= limit ==> limited_ms(frames, rate, limit)
            == rounded_ms(frames, rate),
        rate > 0 && rounded_ms(frames, rate) > limit ==> limited_ms(frames, rate, limit) == limit,
{
    if rate > 0 {
        let time = rounded_ms(frames, rate);
        assert(0 <= time && (frames == 0 ==> time == 0)) by (nonlinear_arith)
            requires
                0 < rate,
                0 <= frames,
                time == (2000 * frames + rate) / (2 * rate),
        ;
    }
}

/// A latency is ten milliseconds more than the frames take, and fifty at most.
pub proof fn lemma_latency(frames: int, rate: int)
    requires
        0 <= frames,
        0 < rate,
    ensures
        rounded_ms(frames, rate) <= 40 ==> latency_ms(frames, rate) == rounded_ms(frames, rate)
            + 10,
        rounded_ms(frames, rate) > 40 ==> latency_ms(frames, rate) == 50,
{
    lemma_limited_ms(frames, rate, 50);
}

/// The buffers that end are the first ones: each with its label and at the sum
/// of the sizes up to its own, as many as end not later than the total.
pub proof fn lemma_first_buffers_end(buffers: Seq<(usize, String)>, total: int)
    ensures
        ({
            let ends = ends_of(buffers, total, buffers.len() as int);
            let count = ends.len() as int;
            &&& count <= buffers.len()
            &&& forall|i: int|
                0 <= i < count ==> (#[trigger] ends[i]).1 == buffers[i].1@ && ends[i].0 == (if i
                    == 0 {
                    buffers[i].0 as int
                } else {
                    ends[i - 1].0 + buffers[i].0
                })
            &&& forall|i: int| 0 <= i < count ==> (#[trigger] ends[i]).0 <= total
            &&& count < buffers.len() ==> (if count == 0 {
                0
            } else {
                ends[count - 1].0
            }) + buffers[count].0 > total
        }),
{
    lemma_ends_are_prefix(buffers, total, buffers.len() as int);
    let ends = ends_of(buffers, total, buffers.len() as int);
    let count = ends.len() as int;
    assert forall|i: int| 0 <= i < count implies (#[trigger] ends[i]).1 == buffers[i].1@
        && ends[i].0 == (if i == 0 {
        buffers[i].0 as int
    } else {
        ends[i - 1].0 + buffers[i].0
    }) by {
        assert(ends[i].0 == frames_of(buffers, i + 1));
        assert(frames_of(buffers, i + 1) == frames_of(buffers, i) + buffers[i].0);
        if i > 0 {
            assert(ends[i - 1].0 == frames_of(buffers, i));
        }
    }
    if count > 0 {
        assert(ends[count - 1].0 == frames_of(buffers, count));
    }
    assert(frames_of(buffers, count + 1) == frames_of(buffers, count) + buffers[count].0);
}

proof fn lemma_ends_are_prefix(buffers: Seq<(usize, String)>, total: int, count: int)
    requires
        0 <= count <= buffers.len(),
    ensures
        ({
            let ends = ends_of(buffers, total, count);
            let held = ends.len() as int;
            &&& held <= count
            &&& forall|i: int|
                0 <= i < held ==> (#[trigger] ends[i]).0 == frames_of(buffers, i + 1) && ends[i].1
                    == buffers[i].1@ && ends[i].0 <= total
            &&& held < count ==> frames_of(buffers, held + 1) > total && frames_of(buffers, count)
                > total
        }),
    decreases count,
{
    if count > 0 {
        lemma_ends_are_prefix(buffers, total, count - 1);
    }
}

} // verus!
