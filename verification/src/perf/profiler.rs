//! Which blocks of guest code are worth compiling, and how well.
use crate::ids::{lists_keys, sorted_keys};
use crate::perf::clock::now;
use std::collections::BTreeMap;
use std::time::Instant;
use vstd::prelude::*;

verus! {

broadcast use vstd::std_specs::btree::group_btree_axioms;

/// How a block is compiled.
#[derive(Debug, Clone, Copy, PartialEq, Eq, Structural)]
pub enum CompilationTier {
    /// Interpreted.
    Uncompiled,
    /// Compiled with little optimization.
    Baseline,
    /// Compiled with full optimization.
    Optimized,
}

/// What is known of a block of guest code.
#[derive(Debug, Clone)]
pub struct BlockProfile {
    pub guest_address: u64,
    pub execution_count: u64,
    pub tier: CompilationTier,
    pub last_compiled: Option<Instant>,
    pub compile_time_us: u64,
    pub instruction_count: usize,
}

/// The tier that a block deserves after `count` executions.
pub open spec fn tier_for(count: int, hot: u64, optimize: u64) -> CompilationTier {
    if count >= optimize {
        CompilationTier::Optimized
    } else if count >= hot {
        CompilationTier::Baseline
    } else {
        CompilationTier::Uncompiled
    }
}

/// How well a block at a tier is compiled.
pub open spec fn tier_rank(tier: CompilationTier) -> int {
    match tier {
        CompilationTier::Uncompiled => 0,
        CompilationTier::Baseline => 1,
        CompilationTier::Optimized => 2,
    }
}

/// A block never deserves less for having run more often.
pub proof fn lemma_tiers_rise(fewer: int, more: int, hot: u64, optimize: u64)
    requires
        fewer <= more,
    ensures
        tier_rank(tier_for(fewer, hot, optimize)) <= tier_rank(tier_for(more, hot, optimize)),
{
}

/// The profile of a block that has not run yet.
pub open spec fn blank_profile(guest_address: u64, instruction_count: usize) -> BlockProfile {
    BlockProfile {
        guest_address,
        execution_count: 0,
        tier: CompilationTier::Uncompiled,
        last_compiled: None,
        compile_time_us: 0,
        instruction_count,
    }
}

/// The profile under `guest_address`, or a blank one.
pub open spec fn profile_or_blank(
    profiles: Map<u64, BlockProfile>,
    guest_address: u64,
    instruction_count: usize,
) -> BlockProfile {
    if profiles.contains_key(guest_address) {
        profiles[guest_address]
    } else {
        blank_profile(guest_address, instruction_count)
    }
}

/// The profiles after a block ran once more.
pub open spec fn recorded(
    profiles: Map<u64, BlockProfile>,
    guest_address: u64,
    instruction_count: usize,
) -> Map<u64, BlockProfile> {
    let profile = profile_or_blank(profiles, guest_address, instruction_count);
    profiles.insert(
        guest_address,
        BlockProfile { execution_count: (profile.execution_count + 1) as u64, ..profile },
    )
}

/// The profiles after some blocks ran, each given by its address and its number
/// of instructions.
pub open spec fn all_recorded(profiles: Map<u64, BlockProfile>, runs: Seq<(u64, usize)>) -> Map<
    u64,
    BlockProfile,
>
    decreases runs.len(),
{
    if runs.len() == 0 {
        profiles
    } else {
        recorded(all_recorded(profiles, runs.drop_last()), runs.last().0, runs.last().1)
    }
}

/// How often a block is among the runs.
pub open spec fn runs_of(runs: Seq<(u64, usize)>, guest_address: u64) -> nat
    decreases runs.len(),
{
    if runs.len() == 0 {
        0
    } else {
        runs_of(runs.drop_last(), guest_address) + if runs.last().0 == guest_address {
            1nat
        } else {
            0
        }
    }
}

/// The number of instructions that the first run of a block gives.
pub open spec fn first_instructions(runs: Seq<(u64, usize)>, guest_address: u64) -> usize
    decreases runs.len(),
{
    if runs.len() == 0 {
        0
    } else if runs_of(runs.drop_last(), guest_address) == 0 {
        runs.last().1
    } else {
        first_instructions(runs.drop_last(), guest_address)
    }
}

/// From an empty account on, a block has as many executions as it had runs and
/// as many instructions as its first run gave, whatever other blocks ran in
/// between, and it stays uncompiled as long as nobody compiles it.
pub proof fn lemma_runs_counted(runs: Seq<(u64, usize)>, guest_address: u64)
    requires
        runs.len() <= u64::MAX,
    ensures
        runs_of(runs, guest_address) <= runs.len(),
        ({
            let profiles = all_recorded(Map::empty(), runs);
            &&& profiles.contains_key(guest_address) <==> runs_of(runs, guest_address) > 0
            &&& runs_of(runs, guest_address) > 0 ==> profiles[guest_address] == (BlockProfile {
                execution_count: runs_of(runs, guest_address) as u64,
                ..blank_profile(guest_address, first_instructions(runs, guest_address))
            })
        }),
    decreases runs.len(),
{
    if runs.len() > 0 {
        lemma_runs_counted(runs.drop_last(), guest_address);
    }
}

/// The addresses of the blocks at a tier.
pub open spec fn at_tier(profiles: Map<u64, BlockProfile>, tier: CompilationTier) -> Set<u64> {
    profiles.dom().filter(|address: u64| profiles[address].tier == tier)
}

proof fn lemma_counted(keys: Seq<u64>, profiles: Map<u64, BlockProfile>, tier: CompilationTier, i: int)
    requires
        lists_keys(keys, profiles),
        0 <= i < keys.len(),
    ensures
        ({
            let some = keys.take(i).to_set().filter(|a: u64| profiles[a].tier == tier);
            let more = keys.take(i + 1).to_set().filter(|a: u64| profiles[a].tier == tier);
            &&& some.finite()
            &&& more.len() == some.len() + if profiles[keys[i]].tier == tier {
                1nat
            } else {
                0
            }
        }),
{
    let p = |a: u64| profiles[a].tier == tier;
    let few = keys.take(i).to_set();
    let many = keys.take(i + 1).to_set();
    vstd::seq_lib::seq_to_set_is_finite(keys.take(i));
    few.lemma_len_filter(p);
    assert(few.filter(p).finite());
    let front = keys.take(i);
    let longer = keys.take(i + 1);
    assert(longer =~= front.push(keys[i]));
    assert(many =~= few.insert(keys[i])) by {
        assert forall|a: u64| many.contains(a) <==> few.insert(keys[i]).contains(a) by {
            if many.contains(a) {
                let j = choose|j: int| 0 <= j < longer.len() && longer[j] == a;
                if j < i {
                    assert(front[j] == a);
                }
            }
            if few.contains(a) {
                let j = choose|j: int| 0 <= j < front.len() && front[j] == a;
                assert(longer[j] == a);
            }
            assert(longer[i] == keys[i]);
        }
    }
    assert(!few.contains(keys[i])) by {
        if few.contains(keys[i]) {
            let j = choose|j: int| 0 <= j < front.len() && front[j] == keys[i];
            assert(keys[j] < keys[i]);
        }
    }
    if p(keys[i]) {
        assert(many.filter(p) =~= few.filter(p).insert(keys[i]));
    } else {
        assert(many.filter(p) =~= few.filter(p));
    }
}

/// Counts how often blocks run and recommends how to compile them.
///
/// A block is interpreted at first. Once it has run often enough it is worth
/// a baseline compilation, and later an optimized one.
pub struct LazyJitProfiler {
    profiles: BTreeMap<u64, BlockProfile>,
    hot_threshold: u64,
    optimize_threshold: u64,
    total_compile_time_us: u64,
    total_compiled: u32,
}

impl LazyJitProfiler {
    pub closed spec fn profiles(&self) -> Map<u64, BlockProfile> {
        self.profiles@
    }

    /// Executions before a baseline compilation.
    pub closed spec fn hot(&self) -> u64 {
        self.hot_threshold
    }

    /// Executions before an optimized compilation.
    pub closed spec fn optimize(&self) -> u64 {
        self.optimize_threshold
    }

    /// Microseconds spent compiling, modulo 2^64.
    pub closed spec fn compile_time(&self) -> u64 {
        self.total_compile_time_us
    }

    /// Number of compilations, modulo 2^32.
    pub closed spec fn compiled(&self) -> u32 {
        self.total_compiled
    }

    pub fn new(hot_threshold: u64, optimize_threshold: u64) -> (profiler: Self)
        ensures
            profiler.profiles() == Map::<u64, BlockProfile>::empty(),
            profiler.hot() == hot_threshold,
            profiler.optimize() == optimize_threshold,
            profiler.compile_time() == 0,
            profiler.compiled() == 0,
    {
        LazyJitProfiler {
            profiles: BTreeMap::new(),
            hot_threshold,
            optimize_threshold,
            total_compile_time_us: 0,
            total_compiled: 0,
        }
    }

    /// Notes that a block ran, and says how it should be compiled by now. The
    /// tier that it is noted at stays: a block that is new is uncompiled.
    pub fn record_execution(&mut self, guest_address: u64, instruction_count: usize) -> (tier:
        CompilationTier)
        requires
            old(self).profiles().contains_key(guest_address) ==> old(
                self,
            ).profiles()[guest_address].execution_count < u64::MAX,
        ensures
            ({
                let profile = profile_or_blank(
                    old(self).profiles(),
                    guest_address,
                    instruction_count,
                );
                &&& final(self).profiles() == recorded(
                    old(self).profiles(),
                    guest_address,
                    instruction_count,
                )
                &&& tier == tier_for(
                    profile.execution_count + 1,
                    old(self).hot(),
                    old(self).optimize(),
                )
            }),
            at_tier(final(self).profiles(), CompilationTier::Uncompiled) == (if old(
                self,
            ).profiles().contains_key(guest_address) {
                at_tier(old(self).profiles(), CompilationTier::Uncompiled)
            } else {
                at_tier(old(self).profiles(), CompilationTier::Uncompiled).insert(guest_address)
            }),
            at_tier(final(self).profiles(), CompilationTier::Baseline) == at_tier(
                old(self).profiles(),
                CompilationTier::Baseline,
            ),
            at_tier(final(self).profiles(), CompilationTier::Optimized) == at_tier(
                old(self).profiles(),
                CompilationTier::Optimized,
            ),
            final(self).hot() == old(self).hot(),
            final(self).optimize() == old(self).optimize(),
            final(self).compile_time() == old(self).compile_time(),
            final(self).compiled() == old(self).compiled(),
    {
        let profile = match self.profiles.remove(&guest_address) {
            Some(profile) => profile,
            None => BlockProfile {
                guest_address,
                execution_count: 0,
                tier: CompilationTier::Uncompiled,
                last_compiled: None,
                compile_time_us: 0,
                instruction_count,
            },
        };
        let count: u64 = profile.execution_count + 1;
        self.profiles.insert(guest_address, BlockProfile { execution_count: count, ..profile });
        assert(self.profiles() =~= old(self).profiles().insert(
            guest_address,
            self.profiles()[guest_address],
        ));
        if count >= self.optimize_threshold {
            CompilationTier::Optimized
        } else if count >= self.hot_threshold {
            CompilationTier::Baseline
        } else {
            CompilationTier::Uncompiled
        }
    }

    /// Notes that a block was compiled. The totals wrap around; the profile of
    /// the block, where it has one, takes the tier, the time spent and the
    /// present moment.
    pub fn mark_compiled(
        &mut self,
        guest_address: u64,
        tier: CompilationTier,
        compile_time_us: u64,
    )
        requires
            old(self).profiles().contains_key(guest_address) ==> old(
                self,
            ).profiles()[guest_address].compile_time_us + compile_time_us <= u64::MAX,
        ensures
            final(self).compile_time() == (old(self).compile_time() + compile_time_us)
                % 0x1_0000_0000_0000_0000,
            final(self).compiled() == (old(self).compiled() + 1) % 0x1_0000_0000,
            final(self).hot() == old(self).hot(),
            final(self).optimize() == old(self).optimize(),
            !old(self).profiles().contains_key(guest_address) ==> final(self).profiles() == old(
                self,
            ).profiles(),
            old(self).profiles().contains_key(guest_address) ==> at_tier(
                final(self).profiles(),
                tier,
            ) == at_tier(old(self).profiles(), tier).insert(guest_address),
            old(self).profiles().contains_key(guest_address) ==> forall|other: CompilationTier|
                other != tier ==> #[trigger] at_tier(final(self).profiles(), other) == at_tier(
                    old(self).profiles(),
                    other,
                ).remove(guest_address),
            old(self).profiles().contains_key(guest_address) ==> {
                let profile = old(self).profiles()[guest_address];
                let after = final(self).profiles()[guest_address];
                &&& final(self).profiles() == old(self).profiles().insert(
                    guest_address,
                    (BlockProfile {
                        tier,
                        last_compiled: after.last_compiled,
                        compile_time_us: (profile.compile_time_us + compile_time_us) as u64,
                        ..profile
                    }),
                )
                &&& after.last_compiled is Some
            },
    {
        self.total_compile_time_us = self.total_compile_time_us.wrapping_add(compile_time_us);
        self.total_compiled = self.total_compiled.wrapping_add(1);
        match self.profiles.remove(&guest_address) {
            Some(profile) => {
                let spent: u64 = profile.compile_time_us + compile_time_us;
                self.profiles.insert(
                    guest_address,
                    BlockProfile {
                        tier,
                        last_compiled: Some(now()),
                        compile_time_us: spent,
                        ..profile
                    },
                );
                proof {
                    assert(self.profiles() =~= old(self).profiles().insert(
                        guest_address,
                        self.profiles()[guest_address],
                    ));
                    assert forall|other: CompilationTier| other != tier implies #[trigger] at_tier(
                        self.profiles(),
                        other,
                    ) == at_tier(old(self).profiles(), other).remove(guest_address) by {
                        assert(at_tier(self.profiles(), other) =~= at_tier(
                            old(self).profiles(),
                            other,
                        ).remove(guest_address));
                    }
                }
            },
            None => {
                assert(self.profiles() =~= old(self).profiles());
            },
        }
    }

    /// The profile of a block.
    pub fn get_profile(&self, guest_address: u64) -> (profile: Option<&BlockProfile>)
        ensures
            match profile {
                Some(found) => self.profiles().contains_key(guest_address)
                    && self.profiles()[guest_address] == *found,
                None => !self.profiles().contains_key(guest_address),
            },
    {
        self.profiles.get(&guest_address)
    }

    /// The tier at which a block was compiled last; a block without a profile
    /// is uncompiled.
    pub fn get_tier(&self, guest_address: u64) -> (tier: CompilationTier)
        ensures
            tier == (if self.profiles().contains_key(guest_address) {
                self.profiles()[guest_address].tier
            } else {
                CompilationTier::Uncompiled
            }),
    {
        match self.profiles.get(&guest_address) {
            Some(profile) => profile.tier,
            None => CompilationTier::Uncompiled,
        }
    }

    /// The number of blocks with a profile.
    pub fn profiled_count(&self) -> (count: usize)
        ensures
            count == self.profiles().len(),
    {
        self.profiles.len()
    }

    /// The number of blocks that are uncompiled, baseline and optimized.
    pub fn tier_counts(&self) -> (counts: (usize, usize, usize))
        ensures
            counts.0 == at_tier(self.profiles(), CompilationTier::Uncompiled).len(),
            counts.1 == at_tier(self.profiles(), CompilationTier::Baseline).len(),
            counts.2 == at_tier(self.profiles(), CompilationTier::Optimized).len(),
            counts.0 + counts.1 + counts.2 == self.profiles().len(),
    {
        let keys: Vec<u64> = sorted_keys(&self.profiles);
        let ghost profiles = self.profiles();
        let mut uncompiled: usize = 0;
        let mut baseline: usize = 0;
        let mut optimized: usize = 0;
        let mut i: usize = 0;
        proof {
            assert(keys@.take(0).to_set() =~= Set::empty());
            let none = Set::<u64>::empty();
            assert(none.filter(|a: u64| profiles[a].tier == CompilationTier::Uncompiled) =~= none);
            assert(none.filter(|a: u64| profiles[a].tier == CompilationTier::Baseline) =~= none);
            assert(none.filter(|a: u64| profiles[a].tier == CompilationTier::Optimized) =~= none);
        }
        while i < keys.len()
            invariant
                i <= keys@.len(),
                profiles == self.profiles@,
                lists_keys(keys@, profiles),
                uncompiled + baseline + optimized == i,
                uncompiled == keys@.take(i as int).to_set().filter(
                    |a: u64| profiles[a].tier == CompilationTier::Uncompiled,
                ).len(),
                baseline == keys@.take(i as int).to_set().filter(
                    |a: u64| profiles[a].tier == CompilationTier::Baseline,
                ).len(),
                optimized == keys@.take(i as int).to_set().filter(
                    |a: u64| profiles[a].tier == CompilationTier::Optimized,
                ).len(),
            decreases keys@.len() - i,
        {
            proof {
                assert(keys@.contains(keys@[i as int]));
                lemma_counted(keys@, profiles, CompilationTier::Uncompiled, i as int);
                lemma_counted(keys@, profiles, CompilationTier::Baseline, i as int);
                lemma_counted(keys@, profiles, CompilationTier::Optimized, i as int);
            }
            match self.get_tier(keys[i]) {
                CompilationTier::Uncompiled => {
                    uncompiled += 1;
                },
                CompilationTier::Baseline => {
                    baseline += 1;
                },
                CompilationTier::Optimized => {
                    optimized += 1;
                },
            }
            i += 1;
        }
        proof {
            assert(keys@.take(i as int) =~= keys@);
            assert(keys@.to_set() =~= profiles.dom()) by {
                assert forall|a: u64| keys@.to_set().contains(a) <==> profiles.dom().contains(
                    a,
                ) by {
                    assert(profiles.contains_key(a) <==> keys@.contains(a));
                }
            }
            keys@.unique_seq_to_set();
        }
        (uncompiled, baseline, optimized)
    }

    /// Microseconds spent compiling.
    pub fn total_compile_time_us(&self) -> (time: u64)
        ensures
            time == self.compile_time(),
    {
        self.total_compile_time_us
    }

    /// The number of compilations.
    pub fn total_compiled(&self) -> (count: u32)
        ensures
            count == self.compiled(),
    {
        self.total_compiled
    }
}

/// A block is compiled at the first threshold and optimized at the second,
/// neither before nor after; where the second comes first it is optimized at
/// once.
pub proof fn lemma_tiers_at_thresholds(count: int, hot: u64, optimize: u64)
    ensures
        count >= optimize <==> tier_for(count, hot, optimize) == CompilationTier::Optimized,
        count < optimize && count >= hot <==> tier_for(count, hot, optimize)
            == CompilationTier::Baseline,
        count < optimize && count < hot <==> tier_for(count, hot, optimize)
            == CompilationTier::Uncompiled,
{
}

/// Blocks are at the tier that their profile says, every block at one.
pub proof fn lemma_at_tiers(profiles: Map<u64, BlockProfile>, address: u64)
    ensures
        forall|tier: CompilationTier| #[trigger]
            at_tier(profiles, tier).contains(address) <==> profiles.contains_key(address)
                && profiles[address].tier == tier,
{
}

/// A block that runs for the first time is counted once, keeps the number of its
/// instructions and is not compiled; one that ran before is counted once more
/// and is otherwise as it was, and so are all other blocks.
pub proof fn lemma_run_recorded(
    profiles: Map<u64, BlockProfile>,
    guest_address: u64,
    instruction_count: usize,
    other: u64,
)
    requires
        profiles.contains_key(guest_address) ==> profiles[guest_address].execution_count < u64::MAX,
    ensures
        ({
            let after = recorded(profiles, guest_address, instruction_count);
            let now = after[guest_address];
            let known = profiles.contains_key(guest_address);
            &&& after.contains_key(guest_address)
            &&& !known ==> {
                &&& now.guest_address == guest_address
                &&& now.execution_count == 1
                &&& now.instruction_count == instruction_count
                &&& now.tier == CompilationTier::Uncompiled
                &&& now.last_compiled is None
                &&& now.compile_time_us == 0
            }
            &&& known ==> {
                let before = profiles[guest_address];
                &&& now.guest_address == before.guest_address
                &&& now.execution_count == before.execution_count + 1
                &&& now.instruction_count == before.instruction_count
                &&& now.tier == before.tier
                &&& now.last_compiled == before.last_compiled
                &&& now.compile_time_us == before.compile_time_us
            }
            &&& other != guest_address ==> (after.contains_key(other) <==> profiles.contains_key(
                other,
            )) && after[other] == profiles[other]
        }),
{
}

} // verus!
