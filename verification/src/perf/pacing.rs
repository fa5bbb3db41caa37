//! The pace of frames.
use crate::perf::clock::{nanoseconds_between, now, time_between};
use crate::perf::ratio::Ratio;
use std::collections::VecDeque;
use std::time::Instant;
use vstd::prelude::*;

verus! {

/// How many frame times are remembered.
pub const FRAME_HISTORY: usize = 120;

pub const NANOSECONDS_PER_SECOND: u64 = 1_000_000_000;

/// What pace is wanted.
#[derive(Debug, Clone, Copy, PartialEq, Eq, Structural)]
pub struct FramePacingConfig {
    /// Frames per second.
    pub target_fps: u32,
    pub vsync_enabled: bool,
    /// How many frames may be under way: 1, 2 or 3 buffers.
    pub max_frame_latency: u32,
}

impl Default for FramePacingConfig {
    fn default() -> (config: Self)
        ensures
            config.target_fps == 60,
            config.vsync_enabled,
            config.max_frame_latency == 2,
    {
        FramePacingConfig { target_fps: 60, vsync_enabled: true, max_frame_latency: 2 }
    }
}

/// How long frames took, in nanoseconds.
#[derive(Debug, Clone, Copy, PartialEq, Eq, Structural)]
pub struct FrameTimingStats {
    pub frames_rendered: u64,
    pub frames_dropped: u64,
    pub total_frame_time_ns: u128,
    /// The largest number there is before the first frame.
    pub min_frame_time_ns: u64,
    pub max_frame_time_ns: u64,
    pub last_frame_time_ns: u64,
}

pub open spec fn no_frames() -> FrameTimingStats {
    FrameTimingStats {
        frames_rendered: 0,
        frames_dropped: 0,
        total_frame_time_ns: 0,
        min_frame_time_ns: u64::MAX,
        max_frame_time_ns: 0,
        last_frame_time_ns: 0,
    }
}

fn empty_stats() -> (stats: FrameTimingStats)
    ensures
        stats == no_frames(),
{
    FrameTimingStats {
        frames_rendered: 0,
        frames_dropped: 0,
        total_frame_time_ns: 0,
        min_frame_time_ns: u64::MAX,
        max_frame_time_ns: 0,
        last_frame_time_ns: 0,
    }
}

/// A frame rate: so many frames per second, or no bound where frames take no
/// time at all.
#[derive(Debug, Clone, Copy, PartialEq, Eq, Structural)]
pub enum FrameRate {
    PerSecond(Ratio),
    Unbounded,
}

/// A frame is dropped where it takes more than one and a half times as long as
/// the target allows. With a target of 0 no frame is.
pub open spec fn is_dropped(frame_time: u64, target_fps: u32) -> bool {
    2 * frame_time * target_fps > 3 * NANOSECONDS_PER_SECOND
}

/// The statistics after one more frame.
pub open spec fn with_frame(stats: FrameTimingStats, frame_time: u64, target_fps: u32) -> FrameTimingStats {
    FrameTimingStats {
        frames_rendered: (stats.frames_rendered + 1) as u64,
        frames_dropped: if is_dropped(frame_time, target_fps) {
            (stats.frames_dropped + 1) as u64
        } else {
            stats.frames_dropped
        },
        total_frame_time_ns: (stats.total_frame_time_ns + frame_time) as u128,
        min_frame_time_ns: if frame_time < stats.min_frame_time_ns {
            frame_time
        } else {
            stats.min_frame_time_ns
        },
        max_frame_time_ns: if frame_time > stats.max_frame_time_ns {
            frame_time
        } else {
            stats.max_frame_time_ns
        },
        last_frame_time_ns: frame_time,
    }
}

/// The remembered frame times after one more frame: the oldest leaves where
/// there are too many.
pub open spec fn with_time(history: Seq<u64>, frame_time: u64) -> Seq<u64> {
    if history.len() >= FRAME_HISTORY {
        history.push(frame_time).drop_first()
    } else {
        history.push(frame_time)
    }
}

/// What is left of a frame of the target rate after `elapsed` nanoseconds, in
/// whole nanoseconds.
pub open spec fn remaining(elapsed: u64, target_fps: u32) -> int {
    let left = NANOSECONDS_PER_SECOND - elapsed * target_fps;
    if left > 0 {
        left / target_fps as int
    } else {
        0
    }
}

/// The longest of some times.
pub open spec fn longest(times: Seq<u64>) -> u64
    decreases times.len(),
{
    if times.len() == 0 {
        0
    } else if times.last() > longest(times.drop_last()) {
        times.last()
    } else {
        longest(times.drop_last())
    }
}

/// Measures frames and says how long to wait for the next one.
pub struct FramePacer {
    config: FramePacingConfig,
    stats: FrameTimingStats,
    last_frame_start: Option<Instant>,
    frame_history: VecDeque<u64>,
}

impl FramePacer {
    pub closed spec fn wanted(&self) -> FramePacingConfig {
        self.config
    }

    pub closed spec fn measured(&self) -> FrameTimingStats {
        self.stats
    }

    /// The last frame times, oldest first.
    pub closed spec fn history(&self) -> Seq<u64> {
        self.frame_history@
    }

    /// When the current frame began.
    pub closed spec fn started(&self) -> Option<Instant> {
        self.last_frame_start
    }

    /// As many frame times are remembered as there were frames, up to a limit;
    /// no more frames were dropped than rendered.
    pub open spec fn valid(&self) -> bool {
        &&& self.measured().frames_dropped <= self.measured().frames_rendered
        &&& self.measured().total_frame_time_ns <= self.measured().frames_rendered * u64::MAX
        &&& self.history().len() == if self.measured().frames_rendered < FRAME_HISTORY {
            self.measured().frames_rendered as int
        } else {
            FRAME_HISTORY as int
        }
    }

    pub fn new(config: FramePacingConfig) -> (pacer: Self)
        ensures
            pacer.valid(),
            pacer.wanted() == config,
            pacer.measured() == no_frames(),
            pacer.history() == Seq::<u64>::empty(),
            pacer.started() is None,
    {
        FramePacer {
            config,
            stats: empty_stats(),
            last_frame_start: None,
            frame_history: VecDeque::new(),
        }
    }

    /// Begins a frame now. Returns the nanoseconds since the last one began, 0
    /// for the first.
    pub fn begin_frame(&mut self) -> (delta: u64)
        ensures
            final(self).started() is Some,
            delta == (match old(self).started() {
                Some(last) => time_between(last, final(self).started()->0),
                None => 0,
            }),
            final(self).wanted() == old(self).wanted(),
            final(self).measured() == old(self).measured(),
            final(self).history() == old(self).history(),
    {
        self.begin_frame_at(now())
    }

    /// Begins a frame at a given moment. Returns the nanoseconds since the last
    /// one began, 0 for the first.
    pub fn begin_frame_at(&mut self, moment: Instant) -> (delta: u64)
        ensures
            final(self).started() == Some(moment),
            delta == (match old(self).started() {
                Some(last) => time_between(last, moment),
                None => 0,
            }),
            final(self).wanted() == old(self).wanted(),
            final(self).measured() == old(self).measured(),
            final(self).history() == old(self).history(),
    {
        let delta: u64 = match &self.last_frame_start {
            Some(last) => nanoseconds_between(last, &moment),
            None => 0,
        };
        self.last_frame_start = Some(moment);
        delta
    }

    /// Ends the current frame now and records how long it took. Without a
    /// current frame nothing happens.
    pub fn end_frame(&mut self)
        requires
            old(self).valid(),
            old(self).measured().frames_rendered < u64::MAX,
        ensures
            final(self).valid(),
            final(self).wanted() == old(self).wanted(),
            final(self).started() == old(self).started(),
            old(self).started() is None ==> *final(self) == *old(self),
            old(self).started() matches Some(start) ==> exists|moment: Instant|
                {
                    let frame_time = #[trigger] time_between(start, moment);
                    &&& final(self).measured() == with_frame(
                        old(self).measured(),
                        frame_time,
                        old(self).wanted().target_fps,
                    )
                    &&& final(self).history() == with_time(old(self).history(), frame_time)
                },
    {
        self.end_frame_at(now());
    }

    /// Ends the current frame at a given moment and records how long it took.
    /// Without a current frame nothing happens.
    pub fn end_frame_at(&mut self, moment: Instant)
        requires
            old(self).valid(),
            old(self).measured().frames_rendered < u64::MAX,
        ensures
            final(self).valid(),
            final(self).wanted() == old(self).wanted(),
            final(self).started() == old(self).started(),
            old(self).started() is None ==> *final(self) == *old(self),
            old(self).started() matches Some(start) ==> {
                &&& final(self).measured() == with_frame(
                    old(self).measured(),
                    time_between(start, moment),
                    old(self).wanted().target_fps,
                )
                &&& final(self).history() == with_time(
                    old(self).history(),
                    time_between(start, moment),
                )
            },
    {
        let frame_time: u64 = match &self.last_frame_start {
            Some(start) => nanoseconds_between(start, &moment),
            None => {
                return;
            },
        };
        self.record_frame(frame_time);
    }

    /// Records a frame that took `frame_time` nanoseconds.
    pub fn record_frame(&mut self, frame_time: u64)
        requires
            old(self).valid(),
            old(self).measured().frames_rendered < u64::MAX,
        ensures
            final(self).valid(),
            final(self).wanted() == old(self).wanted(),
            final(self).started() == old(self).started(),
            final(self).measured() == with_frame(
                old(self).measured(),
                frame_time,
                old(self).wanted().target_fps,
            ),
            final(self).history() == with_time(old(self).history(), frame_time),
    {
        let stats = self.stats;
        let fps: u32 = self.config.target_fps;
        proof {
            let frames = stats.frames_rendered as int;
            let most = u64::MAX as int;
            assert((frames + 1) * most == frames * most + most) by (nonlinear_arith);
            assert((frames + 1) * most <= u128::MAX) by (nonlinear_arith)
                requires
                    0 <= frames < u64::MAX,
                    most == u64::MAX,
            ;
            assert(0 <= frame_time * fps) by (nonlinear_arith);
            assert(2 * frame_time * fps == 2 * (frame_time * fps)) by (nonlinear_arith);
            assert(2 * (frame_time * fps) <= u128::MAX) by (nonlinear_arith)
                requires
                    0 <= frame_time <= u64::MAX,
                    0 <= fps <= u32::MAX,
            ;
        }
        let doubled: u128 = 2 * (frame_time as u128 * fps as u128);
        let dropped: u64 = if doubled > 3 * NANOSECONDS_PER_SECOND as u128 {
            stats.frames_dropped + 1
        } else {
            stats.frames_dropped
        };
        self.stats =
        FrameTimingStats {
            frames_rendered: stats.frames_rendered + 1,
            frames_dropped: dropped,
            total_frame_time_ns: stats.total_frame_time_ns + frame_time as u128,
            min_frame_time_ns: if frame_time < stats.min_frame_time_ns {
                frame_time
            } else {
                stats.min_frame_time_ns
            },
            max_frame_time_ns: if frame_time > stats.max_frame_time_ns {
                frame_time
            } else {
                stats.max_frame_time_ns
            },
            last_frame_time_ns: frame_time,
        };
        self.frame_history.push_back(frame_time);
        if self.frame_history.len() > FRAME_HISTORY {
            self.frame_history.pop_front();
            assert(self.frame_history@ =~= with_time(old(self).frame_history@, frame_time));
        }
    }

    /// Whether a frame is under way.
    pub fn in_frame(&self) -> (current: bool)
        ensures
            current == (self.started() is Some),
    {
        self.last_frame_start.is_some()
    }

    /// How many nanoseconds of the current frame are left now; 0 without a
    /// current frame.
    pub fn frame_remaining_time(&self) -> (time: u64)
        requires
            self.started() is Some ==> self.wanted().target_fps > 0,
        ensures
            self.started() is None ==> time == 0,
            self.started() matches Some(start) ==> exists|moment: Instant|
                time == remaining(
                    #[trigger] time_between(start, moment),
                    self.wanted().target_fps,
                ),
    {
        self.frame_remaining_time_at(now())
    }

    /// How many nanoseconds of the current frame are left at a given moment; 0
    /// without a current frame.
    pub fn frame_remaining_time_at(&self, moment: Instant) -> (time: u64)
        requires
            self.started() is Some ==> self.wanted().target_fps > 0,
        ensures
            self.started() is None ==> time == 0,
            self.started() matches Some(start) ==> time == remaining(
                time_between(start, moment),
                self.wanted().target_fps,
            ),
    {
        match &self.last_frame_start {
            Some(start) => {
                let elapsed: u64 = nanoseconds_between(start, &moment);
                self.remaining_after(elapsed)
            },
            None => 0,
        }
    }

    /// How many nanoseconds of a frame are left after `elapsed` nanoseconds.
    pub fn remaining_after(&self, elapsed: u64) -> (time: u64)
        requires
            self.wanted().target_fps > 0,
        ensures
            time == remaining(elapsed, self.wanted().target_fps),
    {
        let fps: u32 = self.config.target_fps;
        proof {
            assert(0 <= elapsed * fps <= u128::MAX) by (nonlinear_arith)
                requires
                    0 <= elapsed <= u64::MAX,
                    0 <= fps <= u32::MAX,
            ;
        }
        let used: u128 = elapsed as u128 * fps as u128;
        if used < NANOSECONDS_PER_SECOND as u128 {
            (NANOSECONDS_PER_SECOND - used as u64) / fps as u64
        } else {
            0
        }
    }

    /// The average number of frames per second; 0 before the first frame and
    /// where frames took no time.
    pub fn average_fps(&self) -> (rate: Ratio)
        ensures
            rate == (if self.measured().total_frame_time_ns == 0
                || self.measured().frames_rendered == 0 {
                Ratio { part: 0, whole: 1 }
            } else {
                Ratio {
                    part: (self.measured().frames_rendered * NANOSECONDS_PER_SECOND) as u128,
                    whole: self.measured().total_frame_time_ns,
                }
            }),
    {
        let frames: u64 = self.stats.frames_rendered;
        if frames == 0 || self.stats.total_frame_time_ns == 0 {
            Ratio { part: 0, whole: 1 }
        } else {
            proof {
                assert(0 <= frames * NANOSECONDS_PER_SECOND <= u128::MAX) by (nonlinear_arith)
                    requires
                        0 <= frames <= u64::MAX,
                        NANOSECONDS_PER_SECOND == 1_000_000_000,
                ;
            }
            Ratio {
                part: frames as u128 * NANOSECONDS_PER_SECOND as u128,
                whole: self.stats.total_frame_time_ns,
            }
        }
    }

    /// The frame rate of the slowest hundredth of the remembered frames, that
    /// is of the slowest one; 0 before the first frame.
    pub fn one_percent_low_fps(&self) -> (rate: FrameRate)
        requires
            self.valid(),
        ensures
            rate == (if self.history().len() == 0 {
                FrameRate::PerSecond(Ratio { part: 0, whole: 1 })
            } else if longest(self.history()) == 0 {
                FrameRate::Unbounded
            } else {
                FrameRate::PerSecond(
                    Ratio {
                        part: NANOSECONDS_PER_SECOND as u128,
                        whole: longest(self.history()) as u128,
                    },
                )
            }),
    {
        if self.frame_history.len() == 0 {
            return FrameRate::PerSecond(Ratio { part: 0, whole: 1 });
        }
        let mut worst: u64 = 0;
        let mut i: usize = 0;
        assert(self.frame_history@.take(0) =~= Seq::<u64>::empty());
        while i < self.frame_history.len()
            invariant
                i <= self.frame_history@.len(),
                worst == longest(self.frame_history@.take(i as int)),
            decreases self.frame_history@.len() - i,
        {
            assert(self.frame_history@.take(i + 1).drop_last() =~= self.frame_history@.take(
                i as int,
            ));
            if self.frame_history[i] > worst {
                worst = self.frame_history[i];
            }
            i += 1;
        }
        assert(self.frame_history@.take(i as int) =~= self.frame_history@);
        if worst == 0 {
            FrameRate::Unbounded
        } else {
            FrameRate::PerSecond(
                Ratio { part: NANOSECONDS_PER_SECOND as u128, whole: worst as u128 },
            )
        }
    }

    pub fn stats(&self) -> (stats: &FrameTimingStats)
        ensures
            *stats == self.measured(),
    {
        &self.stats
    }

    pub fn config(&self) -> (config: &FramePacingConfig)
        ensures
            *config == self.wanted(),
    {
        &self.config
    }

    pub fn set_config(&mut self, config: FramePacingConfig)
        ensures
            final(self).wanted() == config,
            final(self).measured() == old(self).measured(),
            final(self).history() == old(self).history(),
            final(self).started() == old(self).started(),
    {
        self.config = config;
    }

    /// Forgets all frames, the current one too.
    pub fn reset_stats(&mut self)
        ensures
            final(self).valid(),
            final(self).measured() == no_frames(),
            final(self).history() == Seq::<u64>::empty(),
            final(self).started() is None,
            final(self).wanted() == old(self).wanted(),
    {
        self.stats = empty_stats();
        self.frame_history.clear();
        self.last_frame_start = None;
    }
}

/// The longest time is one of the times, and no other is longer.
pub proof fn lemma_longest(times: Seq<u64>)
    ensures
        times.len() > 0 ==> times.contains(longest(times)),
        forall|i: int| 0 <= i < times.len() ==> #[trigger] times[i] <= longest(times),
    decreases times.len(),
{
    if times.len() > 0 {
        let front = times.drop_last();
        lemma_longest(front);
        assert forall|i: int| 0 <= i < times.len() implies #[trigger] times[i] <= longest(times) by {
            if i < front.len() {
                assert(front[i] == times[i]);
            }
        }
        if front.len() > 0 && times.last() <= longest(front) {
            let j = choose|j: int| 0 <= j < front.len() && front[j] == longest(front);
            assert(times[j] == longest(times));
        } else {
            assert(times[times.len() - 1] == longest(times));
        }
    }
}

/// A frame that keeps to the target rate is not dropped.
pub proof fn lemma_frame_on_time(frame_time: u64, target_fps: u32)
    requires
        frame_time * target_fps <= NANOSECONDS_PER_SECOND,
    ensures
        !is_dropped(frame_time, target_fps),
{
    assert(2 * frame_time * target_fps == 2 * (frame_time * target_fps)) by (nonlinear_arith);
}

/// A frame is dropped where it took more than one and a half times as long as
/// the target allows; so a longer frame is dropped too, and at a higher target
/// as well.
pub proof fn lemma_dropped_frames(frame_time: u64, longer: u64, target_fps: u32, higher: u32)
    requires
        frame_time <= longer,
        target_fps <= higher,
    ensures
        is_dropped(frame_time, target_fps) ==> is_dropped(longer, higher),
        target_fps > 0 && 2 * target_fps * frame_time == 3 * NANOSECONDS_PER_SECOND ==> !is_dropped(
            frame_time,
            target_fps,
        ) && (longer > frame_time ==> is_dropped(longer, target_fps)),
        target_fps == 0 ==> !is_dropped(frame_time, target_fps),
{
    assert(2 * frame_time * target_fps <= 2 * longer * higher) by (nonlinear_arith)
        requires
            0 <= frame_time <= longer,
            0 <= target_fps <= higher,
    ;
    assert(2 * target_fps * frame_time == 2 * frame_time * target_fps) by (nonlinear_arith);
    if target_fps > 0 && longer > frame_time {
        assert(2 * longer * target_fps > 2 * frame_time * target_fps) by (nonlinear_arith)
            requires
                longer > frame_time,
                target_fps > 0,
        ;
    }
    if target_fps == 0 {
        assert(2 * frame_time * target_fps == 0) by (nonlinear_arith)
            requires
                target_fps == 0,
        ;
    }
}

/// What is left of a frame, with what has passed, is the time that the target
/// gives a frame, less than a nanosecond being lost; nothing is left once that
/// time has passed, and all of it at the start.
pub proof fn lemma_remaining(elapsed: u64, target_fps: u32)
    requires
        target_fps > 0,
    ensures
        remaining(elapsed, target_fps) >= 0,
        elapsed * target_fps >= NANOSECONDS_PER_SECOND ==> remaining(elapsed, target_fps) == 0,
        elapsed * target_fps < NANOSECONDS_PER_SECOND ==> {
            let end = (elapsed + remaining(elapsed, target_fps)) * target_fps;
            NANOSECONDS_PER_SECOND - target_fps < end <= NANOSECONDS_PER_SECOND
        },
        remaining(0, target_fps) == NANOSECONDS_PER_SECOND as int / target_fps as int,
{
    let left = NANOSECONDS_PER_SECOND - elapsed * target_fps;
    let fps = target_fps as int;
    let time = left / fps;
    if left > 0 {
        assert(time >= 0 && left - fps < time * fps <= left) by (nonlinear_arith)
            requires
                fps > 0,
                left > 0,
                time == left / fps,
        ;
        assert((elapsed + time) * fps == elapsed * fps + time * fps) by (nonlinear_arith);
    }
    assert(0 * fps == 0);
}

/// Frames are counted one by one, their times added, and the shortest, the
/// longest and the last remembered.
pub proof fn lemma_frames_measured(stats: FrameTimingStats, frame_time: u64, target_fps: u32)
    requires
        stats.frames_rendered < u64::MAX,
        stats.frames_dropped < u64::MAX,
        stats.total_frame_time_ns + frame_time <= u128::MAX,
    ensures
        ({
            let after = with_frame(stats, frame_time, target_fps);
            &&& after.frames_rendered == stats.frames_rendered + 1
            &&& after.frames_dropped == stats.frames_dropped || after.frames_dropped
                == stats.frames_dropped + 1
            &&& after.frames_dropped > stats.frames_dropped <==> is_dropped(frame_time, target_fps)
            &&& after.total_frame_time_ns == stats.total_frame_time_ns + frame_time
            &&& after.min_frame_time_ns <= frame_time <= after.max_frame_time_ns
            &&& after.min_frame_time_ns <= stats.min_frame_time_ns
            &&& after.max_frame_time_ns >= stats.max_frame_time_ns
            &&& after.min_frame_time_ns == frame_time || after.min_frame_time_ns
                == stats.min_frame_time_ns
            &&& after.max_frame_time_ns == frame_time || after.max_frame_time_ns
                == stats.max_frame_time_ns
            &&& after.last_frame_time_ns == frame_time
        }),
{
}

/// The history holds the last 120 times in their order, the newest last.
pub proof fn lemma_history(history: Seq<u64>, frame_time: u64)
    requires
        history.len() <= FRAME_HISTORY,
    ensures
        ({
            let after = with_time(history, frame_time);
            &&& after.len() <= 120
            &&& after.last() == frame_time
            &&& history.len() < 120 ==> after.drop_last() == history
            &&& history.len() == 120 ==> after.drop_last() == history.drop_first()
        }),
{
    let after = with_time(history, frame_time);
    if history.len() == 120 {
        assert(after.drop_last() =~= history.drop_first());
    } else {
        assert(after.drop_last() =~= history);
    }
}

} // verus!
