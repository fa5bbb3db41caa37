//! The queue of shader compilations.
use crate::error::{AppError, AppResult, ReasonCode};
use crate::ids::{
    keys_of, lemma_filter_step, lemma_has_listing, lemma_one_judged_anew, lemma_same_listing,
    lists_keys, sorted_keys,
};
use crate::order::lemma_filtered;
use crate::perf::clock::now;
use crate::text::noted;
use std::collections::BTreeMap;
use std::time::Instant;
use vstd::prelude::*;

verus! {

broadcast use vstd::std_specs::btree::group_btree_axioms;

/// How far a compilation has come.
#[derive(Debug, Clone, PartialEq, Eq)]
pub enum ShaderCompileStatus {
    Pending,
    Compiling,
    Completed,
    Failed(String),
}

/// A shader compilation.
#[derive(Debug, Clone)]
pub struct ShaderCompileJob {
    pub id: u64,
    pub shader_hash: String,
    pub stage: String,
    pub entry_point: String,
    pub status: ShaderCompileStatus,
    pub submit_time: Instant,
    pub complete_time: Option<Instant>,
}

/// The jobs that wait, in the order in which they were numbered.
pub open spec fn waiting(jobs: Map<u64, ShaderCompileJob>) -> Seq<u64> {
    keys_of(jobs).filter(|id: u64| jobs[id].status is Pending)
}

/// The jobs that run.
pub open spec fn running(jobs: Map<u64, ShaderCompileJob>) -> Seq<u64> {
    keys_of(jobs).filter(|id: u64| jobs[id].status is Compiling)
}

/// The jobs that may start: the first that wait, as many as the limit leaves
/// room for beside those that run.
pub open spec fn startable(jobs: Map<u64, ShaderCompileJob>, limit: usize) -> Seq<u64> {
    let room = limit - running(jobs).len();
    if room <= 0 {
        Seq::empty()
    } else if room < waiting(jobs).len() {
        waiting(jobs).take(room)
    } else {
        waiting(jobs)
    }
}

/// The jobs that are done.
pub open spec fn completed_jobs(jobs: Map<u64, ShaderCompileJob>) -> Seq<u64> {
    keys_of(jobs).filter(|id: u64| jobs[id].status is Completed)
}

/// The jobs that failed.
pub open spec fn failed_jobs(jobs: Map<u64, ShaderCompileJob>) -> Seq<u64> {
    keys_of(jobs).filter(|id: u64| jobs[id].status is Failed)
}

/// A job counts by its last status alone: as one completed job or one failed
/// job, however often it was marked.
pub proof fn lemma_counted_by_status(
    jobs: Map<u64, ShaderCompileJob>,
    id: u64,
    job: ShaderCompileJob,
)
    requires
        jobs.dom().finite(),
        jobs.contains_key(id),
    ensures
        ({
            let after = jobs.insert(id, job);
            let one = |yes: bool|
                if yes {
                    1int
                } else {
                    0
                };
            &&& completed_jobs(after).len() == completed_jobs(jobs).len() + one(
                job.status is Completed,
            ) - one(jobs[id].status is Completed)
            &&& failed_jobs(after).len() == failed_jobs(jobs).len() + one(job.status is Failed)
                - one(jobs[id].status is Failed)
        }),
{
    let after = jobs.insert(id, job);
    assert(after.dom() =~= jobs.dom());
    lemma_same_listing(jobs, after);
    lemma_has_listing(jobs);
    let keys = keys_of(jobs);
    assert(keys.contains(id));
    lemma_one_judged_anew(
        keys,
        id,
        |k: u64| jobs[k].status is Completed,
        |k: u64| after[k].status is Completed,
    );
    lemma_one_judged_anew(
        keys,
        id,
        |k: u64| jobs[k].status is Failed,
        |k: u64| after[k].status is Failed,
    );
}

/// Starting what may start keeps to the limit, where it was kept before.
pub proof fn lemma_limit_kept(jobs: Map<u64, ShaderCompileJob>, limit: usize)
    requires
        running(jobs).len() <= limit,
    ensures
        running(jobs).len() + startable(jobs, limit).len() <= limit,
{
}

/// Hands out shader compilations, a limited number of them at a time.
pub struct ParallelShaderCompiler {
    jobs: BTreeMap<u64, ShaderCompileJob>,
    next_job_id: u64,
    max_concurrent: usize,
}

impl ParallelShaderCompiler {
    pub closed spec fn jobs(&self) -> Map<u64, ShaderCompileJob> {
        self.jobs@
    }

    /// The number of the next job.
    pub closed spec fn next_id(&self) -> u64 {
        self.next_job_id
    }

    /// How many jobs may run at a time.
    pub closed spec fn limit(&self) -> usize {
        self.max_concurrent
    }

    pub fn new(max_concurrent: usize) -> (compiler: Self)
        ensures
            compiler.jobs() == Map::<u64, ShaderCompileJob>::empty(),
            compiler.next_id() == 1,
            compiler.limit() == max_concurrent,
    {
        ParallelShaderCompiler {
            jobs: BTreeMap::new(),
            next_job_id: 1,
            max_concurrent,
        }
    }

    /// Queues a compilation and returns its number.
    pub fn submit_job(&mut self, shader_hash: String, stage: String, entry_point: String) -> (id:
        u64)
        ensures
            id == old(self).next_id(),
            final(self).next_id() == (old(self).next_id() + 1) % 0x1_0000_0000_0000_0000,
            final(self).limit() == old(self).limit(),
            final(self).jobs() == old(self).jobs().insert(
                id,
                (ShaderCompileJob {
                    id,
                    shader_hash,
                    stage,
                    entry_point,
                    status: ShaderCompileStatus::Pending,
                    submit_time: final(self).jobs()[id].submit_time,
                    complete_time: None,
                }),
            ),
    {
        let id: u64 = self.next_job_id;
        self.next_job_id = id.wrapping_add(1);
        self.jobs.insert(
            id,
            ShaderCompileJob {
                id,
                shader_hash,
                stage,
                entry_point,
                status: ShaderCompileStatus::Pending,
                submit_time: now(),
                complete_time: None,
            },
        );
        id
    }

    /// Notes that a job runs. An unknown job is an error.
    pub fn mark_compiling(&mut self, job_id: u64) -> (outcome: AppResult<()>)
        ensures
            outcome is Ok <==> old(self).jobs().contains_key(job_id),
            outcome matches Err(error) ==> {
                &&& error.code == ReasonCode::RcDxilInvalid
                &&& final(self).jobs() == old(self).jobs()
            },
            outcome is Ok ==> final(self).jobs() == old(self).jobs().insert(
                job_id,
                (ShaderCompileJob {
                    status: ShaderCompileStatus::Compiling,
                    ..old(self).jobs()[job_id]
                }),
            ),
            final(self).next_id() == old(self).next_id(),
            final(self).limit() == old(self).limit(),
    {
        match self.jobs.remove(&job_id) {
            Some(job) => {
                self.jobs.insert(
                    job_id,
                    ShaderCompileJob { status: ShaderCompileStatus::Compiling, ..job },
                );
                assert(self.jobs() =~= old(self).jobs().insert(job_id, self.jobs()[job_id]));
                Ok(())
            },
            None => {
                assert(self.jobs() =~= old(self).jobs());
                Err(
                    AppError::new(
                        ReasonCode::RcDxilInvalid,
                        &noted("shader job ", job_id, " not found"),
                    ),
                )
            },
        }
    }

    /// Notes that a job is done, at the present moment. An unknown job is an
    /// error.
    pub fn mark_completed(&mut self, job_id: u64) -> (outcome: AppResult<()>)
        ensures
            outcome is Ok <==> old(self).jobs().contains_key(job_id),
            outcome matches Err(error) ==> {
                &&& error.code == ReasonCode::RcDxilInvalid
                &&& final(self).jobs() == old(self).jobs()
            },
            outcome is Ok ==> {
                &&& final(self).jobs() == old(self).jobs().insert(
                    job_id,
                    (ShaderCompileJob {
                        status: ShaderCompileStatus::Completed,
                        complete_time: final(self).jobs()[job_id].complete_time,
                        ..old(self).jobs()[job_id]
                    }),
                )
                &&& final(self).jobs()[job_id].complete_time is Some
            },
            final(self).next_id() == old(self).next_id(),
            final(self).limit() == old(self).limit(),
    {
        match self.jobs.remove(&job_id) {
            Some(job) => {
                self.jobs.insert(
                    job_id,
                    ShaderCompileJob {
                        status: ShaderCompileStatus::Completed,
                        complete_time: Some(now()),
                        ..job
                    },
                );
                assert(self.jobs() =~= old(self).jobs().insert(job_id, self.jobs()[job_id]));
                Ok(())
            },
            None => {
                assert(self.jobs() =~= old(self).jobs());
                Err(
                    AppError::new(
                        ReasonCode::RcDxilInvalid,
                        &noted("shader job ", job_id, " not found"),
                    ),
                )
            },
        }
    }

    /// Notes that a job failed, at the present moment. An unknown job is an
    /// error.
    pub fn mark_failed(&mut self, job_id: u64, error: String) -> (outcome: AppResult<()>)
        ensures
            outcome is Ok <==> old(self).jobs().contains_key(job_id),
            outcome matches Err(refusal) ==> {
                &&& refusal.code == ReasonCode::RcDxilInvalid
                &&& final(self).jobs() == old(self).jobs()
            },
            outcome is Ok ==> {
                &&& final(self).jobs() == old(self).jobs().insert(
                    job_id,
                    (ShaderCompileJob {
                        status: ShaderCompileStatus::Failed(error),
                        complete_time: final(self).jobs()[job_id].complete_time,
                        ..old(self).jobs()[job_id]
                    }),
                )
                &&& final(self).jobs()[job_id].complete_time is Some
            },
            final(self).next_id() == old(self).next_id(),
            final(self).limit() == old(self).limit(),
    {
        match self.jobs.remove(&job_id) {
            Some(job) => {
                self.jobs.insert(
                    job_id,
                    ShaderCompileJob {
                        status: ShaderCompileStatus::Failed(error),
                        complete_time: Some(now()),
                        ..job
                    },
                );
                assert(self.jobs() =~= old(self).jobs().insert(job_id, self.jobs()[job_id]));
                Ok(())
            },
            None => {
                assert(self.jobs() =~= old(self).jobs());
                Err(
                    AppError::new(
                        ReasonCode::RcDxilInvalid,
                        &noted("shader job ", job_id, " not found"),
                    ),
                )
            },
        }
    }

    /// The jobs that may start now.
    pub fn pending_jobs(&self) -> (list: Vec<&ShaderCompileJob>)
        ensures
            lists_keys(keys_of(self.jobs()), self.jobs()),
            list@.len() == startable(self.jobs(), self.limit()).len(),
            forall|i: int|
                0 <= i < list@.len() ==> *#[trigger] list@[i] == self.jobs()[startable(
                    self.jobs(),
                    self.limit(),
                )[i]],
    {
        let keys: Vec<u64> = sorted_keys(&self.jobs);
        let ghost jobs = self.jobs();
        let ghost runs = |id: u64| jobs[id].status is Compiling;
        let ghost waits = |id: u64| jobs[id].status is Pending;
        proof {
            reveal(Seq::filter);
        }
        let mut count: usize = 0;
        let mut i: usize = 0;
        while i < keys.len()
            invariant
                i <= keys@.len(),
                count <= i,
                jobs == self.jobs@,
                runs == (|id: u64| jobs[id].status is Compiling),
                lists_keys(keys@, jobs),
                count == keys@.take(i as int).filter(runs).len(),
            decreases keys@.len() - i,
        {
            proof {
                lemma_filter_step(keys@, i as int, runs);
                assert(keys@.contains(keys@[i as int]));
            }
            match self.jobs.get(&keys[i]) {
                Some(job) => {
                    if matches!(job.status, ShaderCompileStatus::Compiling) {
                        count += 1;
                    }
                },
                None => {},
            }
            i += 1;
        }
        assert(keys@.take(i as int) =~= keys@);
        let room: usize = if self.max_concurrent > count {
            self.max_concurrent - count
        } else {
            0
        };
        let mut list: Vec<&ShaderCompileJob> = Vec::new();
        let mut at: usize = 0;
        while at < keys.len() && list.len() < room
            invariant
                at <= keys@.len(),
                jobs == self.jobs@,
                waits == (|id: u64| jobs[id].status is Pending),
                lists_keys(keys@, jobs),
                list@.len() <= room,
                list@.len() == keys@.take(at as int).filter(waits).len(),
                forall|j: int|
                    0 <= j < list@.len() ==> *#[trigger] list@[j] == jobs[keys@.take(
                        at as int,
                    ).filter(waits)[j]],
            decreases keys@.len() - at,
        {
            proof {
                lemma_filter_step(keys@, at as int, waits);
                assert(keys@.contains(keys@[at as int]));
            }
            match self.jobs.get(&keys[at]) {
                Some(job) => {
                    if matches!(job.status, ShaderCompileStatus::Pending) {
                        list.push(job);
                    }
                },
                None => {},
            }
            at += 1;
        }
        proof {
            lemma_filter_front(keys@, at as int, waits);
            if at == keys@.len() {
                assert(keys@.take(at as int) =~= keys@);
            }
        }
        list
    }

    /// A job by its number.
    pub fn get_job(&self, job_id: u64) -> (job: Option<&ShaderCompileJob>)
        ensures
            match job {
                Some(found) => self.jobs().contains_key(job_id) && self.jobs()[job_id] == *found,
                None => !self.jobs().contains_key(job_id),
            },
    {
        self.jobs.get(&job_id)
    }

    /// The number of jobs.
    pub fn job_count(&self) -> (count: usize)
        ensures
            count == self.jobs().len(),
    {
        self.jobs.len()
    }

    /// The number of completed jobs, what is beyond 32 bits being dropped.
    pub fn completed_count(&self) -> (count: u32)
        ensures
            self.jobs().dom().finite(),
            lists_keys(keys_of(self.jobs()), self.jobs()),
            count == completed_jobs(self.jobs()).len() % 0x1_0000_0000,
            completed_jobs(self.jobs()).len() <= u32::MAX ==> count == completed_jobs(self.jobs()).len(),
    {
        let keys: Vec<u64> = sorted_keys(&self.jobs);
        let ghost jobs = self.jobs();
        let ghost wanted = |id: u64| jobs[id].status is Completed;
        proof {
            reveal(Seq::filter);
        }
        let mut count: usize = 0;
        let mut i: usize = 0;
        while i < keys.len()
            invariant
                i <= keys@.len(),
                count <= i,
                jobs == self.jobs@,
                wanted == (|id: u64| jobs[id].status is Completed),
                lists_keys(keys@, jobs),
                count == keys@.take(i as int).filter(wanted).len(),
            decreases keys@.len() - i,
        {
            proof {
                lemma_filter_step(keys@, i as int, wanted);
                assert(keys@.contains(keys@[i as int]));
            }
            match self.jobs.get(&keys[i]) {
                Some(job) => {
                    if matches!(job.status, ShaderCompileStatus::Completed) {
                        count += 1;
                    }
                },
                None => {},
            }
            i += 1;
        }
        assert(keys@.take(i as int) =~= keys@);
        (count as u64 % 0x1_0000_0000) as u32
    }

    /// The number of failed jobs, what is beyond 32 bits being dropped.
    pub fn failed_count(&self) -> (count: u32)
        ensures
            self.jobs().dom().finite(),
            lists_keys(keys_of(self.jobs()), self.jobs()),
            count == failed_jobs(self.jobs()).len() % 0x1_0000_0000,
            failed_jobs(self.jobs()).len() <= u32::MAX ==> count == failed_jobs(self.jobs()).len(),
    {
        let keys: Vec<u64> = sorted_keys(&self.jobs);
        let ghost jobs = self.jobs();
        let ghost wanted = |id: u64| jobs[id].status is Failed;
        proof {
            reveal(Seq::filter);
        }
        let mut count: usize = 0;
        let mut i: usize = 0;
        while i < keys.len()
            invariant
                i <= keys@.len(),
                count <= i,
                jobs == self.jobs@,
                wanted == (|id: u64| jobs[id].status is Failed),
                lists_keys(keys@, jobs),
                count == keys@.take(i as int).filter(wanted).len(),
            decreases keys@.len() - i,
        {
            proof {
                lemma_filter_step(keys@, i as int, wanted);
                assert(keys@.contains(keys@[i as int]));
            }
            match self.jobs.get(&keys[i]) {
                Some(job) => {
                    if matches!(job.status, ShaderCompileStatus::Failed(_)) {
                        count += 1;
                    }
                },
                None => {},
            }
            i += 1;
        }
        assert(keys@.take(i as int) =~= keys@);
        (count as u64 % 0x1_0000_0000) as u32
    }
}

/// The wanted items of a front part are a front part of the wanted items.
proof fn lemma_filter_front<A>(items: Seq<A>, count: int, wanted: spec_fn(A) -> bool)
    requires
        0 <= count <= items.len(),
    ensures
        items.take(count).filter(wanted).len() <= items.filter(wanted).len(),
        items.take(count).filter(wanted) == items.filter(wanted).take(
            items.take(count).filter(wanted).len() as int,
        ),
    decreases items.len() - count,
{
    if count < items.len() {
        lemma_filter_front(items, count + 1, wanted);
        lemma_filter_step(items, count, wanted);
        assert(items.take(count).filter(wanted) =~= items.filter(wanted).take(
            items.take(count).filter(wanted).len() as int,
        ));
    } else {
        assert(items.take(count) =~= items);
        assert(items.filter(wanted) =~= items.filter(wanted).take(
            items.filter(wanted).len() as int,
        ));
    }
}

/// What may start is pending, in the order in which it was asked for, and there
/// is room for it; where something pending may not start, no room is left.
pub proof fn lemma_startable(jobs: Map<u64, ShaderCompileJob>, limit: usize)
    requires
        lists_keys(keys_of(jobs), jobs),
    ensures
        ({
            let list = startable(jobs, limit);
            &&& forall|i: int|
                0 <= i < list.len() ==> jobs.contains_key(#[trigger] list[i])
                    && jobs[list[i]].status is Pending && list[i] == waiting(jobs)[i]
            &&& forall|id: u64| #[trigger]
                waiting(jobs).contains(id) <==> jobs.contains_key(id) && jobs[id].status is Pending
            &&& forall|id: u64| #[trigger]
                running(jobs).contains(id) <==> jobs.contains_key(id)
                    && jobs[id].status is Compiling
            &&& list.len() < waiting(jobs).len() && running(jobs).len() <= limit
                ==> running(jobs).len() + list.len() == limit
            &&& list.len() <= waiting(jobs).len()
        }),
{
    lemma_filtered(keys_of(jobs), |id: u64| jobs[id].status is Pending);
    lemma_filtered(keys_of(jobs), |id: u64| jobs[id].status is Compiling);
    let list = startable(jobs, limit);
    assert forall|i: int| 0 <= i < list.len() implies jobs.contains_key(#[trigger] list[i])
        && jobs[list[i]].status is Pending && list[i] == waiting(jobs)[i] by {
        assert(waiting(jobs).contains(waiting(jobs)[i]));
    }
}

} // verus!
