//! Grouping of draw calls that share a pipeline.
use crate::perf::ratio::Ratio;
use vstd::prelude::*;

verus! {

/// A draw call.
#[derive(Debug, Clone, Copy)]
pub struct BatchedDrawCall {
    pub vertex_count: u32,
    pub index_count: u32,
    pub instance_count: u32,
    pub start_vertex: u32,
    pub base_index: u32,
}

/// Draw calls that share a pipeline.
#[derive(Debug, Clone)]
pub struct DrawBatch {
    pub pipeline_state_id: u64,
    pub draw_calls: Vec<BatchedDrawCall>,
    pub total_vertices: u32,
    pub total_indices: u32,
}

#[verifier::ext_equal]
pub struct DrawBatchModel {
    pub pipeline: u64,
    pub calls: Seq<BatchedDrawCall>,
    pub vertices: int,
    pub indices: int,
}

impl DeepView for DrawBatch {
    type V = DrawBatchModel;

    open spec fn deep_view(&self) -> DrawBatchModel {
        DrawBatchModel {
            pipeline: self.pipeline_state_id,
            calls: self.draw_calls@,
            vertices: self.total_vertices as int,
            indices: self.total_indices as int,
        }
    }
}

/// What was drawn and how it was grouped.
#[derive(Debug, Clone, Copy, PartialEq, Eq, Structural)]
pub struct BatchingStats {
    pub total_draw_calls: u64,
    pub batched_draw_calls: u64,
    pub render_pass_breaks: u64,
    pub pipeline_changes: u64,
    pub vertices_drawn: u64,
    pub indices_drawn: u64,
}

pub open spec fn no_stats() -> BatchingStats {
    BatchingStats {
        total_draw_calls: 0,
        batched_draw_calls: 0,
        render_pass_breaks: 0,
        pipeline_changes: 0,
        vertices_drawn: 0,
        indices_drawn: 0,
    }
}

impl Default for BatchingStats {
    fn default() -> (stats: Self)
        ensures
            stats == no_stats(),
    {
        BatchingStats {
            total_draw_calls: 0,
            batched_draw_calls: 0,
            render_pass_breaks: 0,
            pipeline_changes: 0,
            vertices_drawn: 0,
            indices_drawn: 0,
        }
    }
}

/// The state of a batcher: the pipeline of the last draw call, the batch that
/// is still open, the batches that are done, and the statistics.
#[verifier::ext_equal]
pub struct Batching {
    pub pipeline: Option<u64>,
    pub open_batch: Option<DrawBatchModel>,
    pub done: Seq<DrawBatchModel>,
    pub stats: BatchingStats,
    pub limit: nat,
}

pub open spec fn empty_batch(pipeline: u64) -> DrawBatchModel {
    DrawBatchModel { pipeline, calls: Seq::empty(), vertices: 0, indices: 0 }
}

pub open spec fn vertices_of(calls: Seq<BatchedDrawCall>) -> int
    decreases calls.len(),
{
    if calls.len() == 0 {
        0
    } else {
        vertices_of(calls.drop_last()) + calls.last().vertex_count
    }
}

pub open spec fn indices_of(calls: Seq<BatchedDrawCall>) -> int
    decreases calls.len(),
{
    if calls.len() == 0 {
        0
    } else {
        indices_of(calls.drop_last()) + calls.last().index_count
    }
}

/// `batch` holds at least one call and its totals are those of its calls.
pub open spec fn sound_batch(batch: DrawBatchModel) -> bool {
    &&& batch.calls.len() > 0
    &&& batch.vertices == vertices_of(batch.calls)
    &&& batch.indices == indices_of(batch.calls)
}

/// The largest number of calls in a batch: a limit of 0 counts as 1.
pub open spec fn most_calls(limit: nat) -> nat {
    if limit == 0 {
        1
    } else {
        limit
    }
}

/// `batch` could not take the first call of `next`, which came right after its
/// own: it is full, or `next` is for another pipeline.
pub open spec fn had_to_end(batch: DrawBatchModel, next: DrawBatchModel, limit: nat) -> bool {
    batch.pipeline != next.pipeline || batch.calls.len() == most_calls(limit)
}

/// Of two neighbours the first is full or is for another pipeline.
pub open spec fn tightly_split(batches: Seq<DrawBatchModel>, limit: nat) -> bool {
    forall|i: int, j: int|
        0 <= i && j == i + 1 && j < batches.len() ==> had_to_end(
            #[trigger] batches[i],
            #[trigger] batches[j],
            limit,
        )
}

impl Batching {
    /// Every counted draw call was batched, and the batches are in order.
    pub open spec fn sound(self) -> bool {
        &&& self.stats.batched_draw_calls == self.stats.total_draw_calls
        &&& self.grouped()
    }

    /// The batches are sound and keep to the limit, and the open one has room
    /// left and belongs to the last pipeline.
    pub open spec fn grouped(self) -> bool {
        &&& self.open_batch matches Some(batch) ==> {
            &&& sound_batch(batch)
            &&& batch.calls.len() < self.limit
            &&& self.pipeline == Some(batch.pipeline)
        }
        &&& forall|i: int|
            0 <= i < self.done.len() ==> sound_batch(#[trigger] self.done[i])
                && self.done[i].calls.len() <= most_calls(self.limit)
    }

    /// No batch ended before it had to: of two neighbours the first is full or
    /// is for another pipeline, and where no batch is open, the last one that
    /// is done is full and of the last pipeline.
    pub open spec fn tight(self) -> bool {
        &&& tightly_split(self.done, self.limit)
        &&& self.done.len() > 0 ==> match self.open_batch {
            Some(batch) => had_to_end(self.done.last(), batch, self.limit),
            None => {
                &&& self.done.last().calls.len() == most_calls(self.limit)
                &&& self.pipeline == Some(self.done.last().pipeline)
            },
        }
    }

    /// The open batch is done.
    pub open spec fn flushed(self) -> Batching {
        match self.open_batch {
            Some(batch) => if batch.calls.len() > 0 {
                Batching {
                    open_batch: None,
                    done: self.done.push(batch),
                    stats: BatchingStats {
                        render_pass_breaks: (self.stats.render_pass_breaks + 1) as u64,
                        ..self.stats
                    },
                    ..self
                }
            } else {
                Batching { open_batch: None, ..self }
            },
            None => self,
        }
    }

    /// The statistics count one more draw call.
    pub open spec fn counted(self, call: BatchedDrawCall) -> Batching {
        Batching {
            stats: BatchingStats {
                total_draw_calls: (self.stats.total_draw_calls + 1) as u64,
                vertices_drawn: (self.stats.vertices_drawn + call.vertex_count
                    * call.instance_count) as u64,
                indices_drawn: (self.stats.indices_drawn + call.index_count
                    * call.instance_count) as u64,
                ..self.stats
            },
            ..self
        }
    }

    /// The pipeline is `pipeline`; a batch for another one is done.
    pub open spec fn switched(self, pipeline: u64) -> Batching {
        if self.pipeline == Some(pipeline) {
            self
        } else {
            let flushed = self.flushed();
            Batching {
                pipeline: Some(pipeline),
                stats: BatchingStats {
                    pipeline_changes: (flushed.stats.pipeline_changes + 1) as u64,
                    ..flushed.stats
                },
                ..flushed
            }
        }
    }

    /// The batch that the next draw call joins.
    pub open spec fn current(self, pipeline: u64) -> DrawBatchModel {
        match self.open_batch {
            Some(batch) => batch,
            None => empty_batch(pipeline),
        }
    }

    /// A draw call joins the open batch.
    pub open spec fn joined(self, pipeline: u64, call: BatchedDrawCall) -> Batching {
        let batch = self.current(pipeline);
        Batching {
            open_batch: Some(
                DrawBatchModel {
                    calls: batch.calls.push(call),
                    vertices: batch.vertices + call.vertex_count,
                    indices: batch.indices + call.index_count,
                    ..batch
                },
            ),
            stats: BatchingStats {
                batched_draw_calls: (self.stats.batched_draw_calls + 1) as u64,
                ..self.stats
            },
            ..self
        }
    }

    /// The state after a draw call: it joins the batch of its pipeline, and a
    /// full batch is done.
    pub open spec fn recorded(self, pipeline: u64, call: BatchedDrawCall) -> Batching {
        let grown = self.counted(call).switched(pipeline).joined(pipeline, call);
        if grown.open_batch->0.calls.len() >= grown.limit {
            grown.flushed()
        } else {
            grown
        }
    }

    /// No counter overflows with one more draw call.
    pub open spec fn has_room(self, pipeline: u64, call: BatchedDrawCall) -> bool {
        let batch = self.switched(pipeline).current(pipeline);
        &&& self.stats.total_draw_calls < u64::MAX
        &&& self.stats.batched_draw_calls < u64::MAX
        &&& self.stats.pipeline_changes < u64::MAX
        &&& self.stats.render_pass_breaks < u64::MAX - 1
        &&& self.stats.vertices_drawn + call.vertex_count * call.instance_count <= u64::MAX
        &&& self.stats.indices_drawn + call.index_count * call.instance_count <= u64::MAX
        &&& batch.vertices + call.vertex_count <= u32::MAX
        &&& batch.indices + call.index_count <= u32::MAX
    }

    /// All draw calls that have not been handed out, each with its pipeline, in
    /// the order in which they will be.
    pub open spec fn all_calls(self) -> Seq<(u64, BatchedDrawCall)> {
        calls_in(self.done) + match self.open_batch {
            Some(batch) => labelled(batch),
            None => Seq::empty(),
        }
    }
}

/// The calls of a batch, each with its pipeline.
pub open spec fn labelled(batch: DrawBatchModel) -> Seq<(u64, BatchedDrawCall)> {
    batch.calls.map_values(|call: BatchedDrawCall| (batch.pipeline, call))
}

/// The calls of all batches, in order.
pub open spec fn calls_in(batches: Seq<DrawBatchModel>) -> Seq<(u64, BatchedDrawCall)>
    decreases batches.len(),
{
    if batches.len() == 0 {
        Seq::empty()
    } else {
        calls_in(batches.drop_last()) + labelled(batches.last())
    }
}

proof fn lemma_flush_keeps(state: Batching)
    requires
        state.open_batch matches Some(batch) ==> sound_batch(batch) && batch.calls.len()
            <= most_calls(state.limit),
        (Batching { open_batch: None, ..state }).grouped(),
    ensures
        state.flushed().all_calls() == state.all_calls(),
        state.flushed().grouped(),
        state.flushed().open_batch is None,
{
    match state.open_batch {
        Some(batch) => {
            let done = state.done.push(batch);
            assert(done.drop_last() =~= state.done);
            assert(state.flushed().all_calls() =~= state.all_calls());
            let alone = Batching { open_batch: None, ..state };
            assert forall|i: int| 0 <= i < done.len() implies sound_batch(#[trigger] done[i])
                && done[i].calls.len() <= most_calls(state.limit) by {
                if i < state.done.len() {
                    assert(done[i] == alone.done[i]);
                }
            }
        },
        None => {},
    }
}

/// A recorded draw call is the last of those that will be handed out, and
/// none of the others is lost or changes its place.
pub proof fn lemma_recorded_call_is_last(state: Batching, pipeline: u64, call: BatchedDrawCall)
    requires
        state.sound(),
    ensures
        state.recorded(pipeline, call).all_calls() == state.all_calls().push((pipeline, call)),
        state.recorded(pipeline, call).sound(),
{
    let counted = state.counted(call);
    assert(counted.all_calls() == state.all_calls());
    let switched = counted.switched(pipeline);
    if counted.pipeline != Some(pipeline) {
        lemma_flush_keeps(counted);
        assert(switched.done == counted.flushed().done);
    }
    assert(switched.all_calls() == state.all_calls());
    let batch = switched.current(pipeline);
    let grown = switched.joined(pipeline, call);
    let larger = grown.open_batch->0;
    assert(larger.calls.drop_last() =~= batch.calls);
    assert(vertices_of(batch.calls) == batch.vertices);
    assert(indices_of(batch.calls) == batch.indices);
    assert(sound_batch(larger));
    assert(labelled(larger) =~= labelled(batch).push((pipeline, call)));
    assert(grown.all_calls() =~= state.all_calls().push((pipeline, call)));
    if larger.calls.len() >= grown.limit {
        lemma_flush_keeps(grown);
    }
}

/// Finishing the open batch keeps every draw call and its place.
pub proof fn lemma_flushing_keeps_calls(state: Batching)
    requires
        state.sound(),
    ensures
        state.flushed().all_calls() == state.all_calls(),
        state.flushed().all_calls() == calls_in(state.flushed().done),
        state.flushed().sound(),
{
    lemma_flush_keeps(state);
    assert(state.flushed().all_calls() =~= calls_in(state.flushed().done));
}

proof fn lemma_flush_splits(state: Batching)
    requires
        state.tight(),
        state.open_batch matches Some(batch) ==> batch.calls.len() > 0,
    ensures
        tightly_split(state.flushed().done, state.limit),
{
    match state.open_batch {
        Some(batch) => {
            let done = state.done.push(batch);
            assert forall|i: int, j: int| 0 <= i && j == i + 1 && j < done.len() implies had_to_end(
                #[trigger] done[i],
                #[trigger] done[j],
                state.limit,
            ) by {
                if j < state.done.len() {
                    assert(had_to_end(state.done[i], state.done[j], state.limit));
                }
            }
        },
        None => {},
    }
}

/// Recording a draw call ends no batch early: of two neighbouring batches the
/// first is full or is for another pipeline, as long as nobody finished one by
/// hand.
pub proof fn lemma_recorded_stays_tight(state: Batching, pipeline: u64, call: BatchedDrawCall)
    requires
        state.sound(),
        state.tight(),
    ensures
        state.recorded(pipeline, call).tight(),
{
    lemma_flush_splits(state);
    let switched = state.counted(call).switched(pipeline);
    assert(switched.done == (if state.pipeline == Some(pipeline) {
        state.done
    } else {
        state.flushed().done
    }));
    let grown = switched.joined(pipeline, call);
    assert(grown.tight());
    if grown.open_batch->0.calls.len() >= grown.limit {
        lemma_flush_splits(grown);
    }
}

/// The state after some draw calls, each given with its pipeline.
pub open spec fn all_recorded(state: Batching, draws: Seq<(u64, BatchedDrawCall)>) -> Batching
    decreases draws.len(),
{
    if draws.len() == 0 {
        state
    } else {
        all_recorded(state, draws.drop_last()).recorded(draws.last().0, draws.last().1)
    }
}

/// Whatever is drawn after all batches were handed out comes out again: joined,
/// the batches hold all the draw calls in order, each with its pipeline; none
/// is empty or over the limit, and its totals are those of its calls; and none
/// ended before it had to.
pub proof fn lemma_drawn_comes_out(state: Batching, draws: Seq<(u64, BatchedDrawCall)>)
    requires
        state.sound(),
        state.done.len() == 0,
        state.open_batch is None,
    ensures
        ({
            let batches = all_recorded(state, draws).flushed().done;
            &&& calls_in(batches) == draws
            &&& tightly_split(batches, state.limit)
            &&& forall|i: int|
                0 <= i < batches.len() ==> sound_batch(#[trigger] batches[i])
                    && batches[i].calls.len() <= most_calls(state.limit)
        }),
{
    lemma_all_recorded(state, draws);
    let drawn = all_recorded(state, draws);
    lemma_flushing_keeps_calls(drawn);
    lemma_flush_splits(drawn);
    assert(state.all_calls() =~= Seq::empty());
    assert(state.all_calls() + draws =~= draws);
}

proof fn lemma_all_recorded(state: Batching, draws: Seq<(u64, BatchedDrawCall)>)
    requires
        state.sound(),
        state.tight(),
    ensures
        ({
            let drawn = all_recorded(state, draws);
            &&& drawn.sound()
            &&& drawn.tight()
            &&& drawn.limit == state.limit
            &&& drawn.all_calls() == state.all_calls() + draws
        }),
    decreases draws.len(),
{
    if draws.len() == 0 {
        assert(state.all_calls() + draws =~= state.all_calls());
    } else {
        lemma_all_recorded(state, draws.drop_last());
        let before = all_recorded(state, draws.drop_last());
        let (pipeline, call) = draws.last();
        lemma_recorded_call_is_last(before, pipeline, call);
        lemma_recorded_stays_tight(before, pipeline, call);
        assert(state.all_calls() + draws =~= (state.all_calls() + draws.drop_last()).push(
            draws.last(),
        ));
    }
}

/// Groups draw calls so that the pipeline changes as rarely as their order
/// allows.
pub struct MetalCommandBatcher {
    current_pipeline: Option<u64>,
    current_batch: Option<DrawBatch>,
    completed_batches: Vec<DrawBatch>,
    stats: BatchingStats,
    max_batch_size: usize,
}

impl View for MetalCommandBatcher {
    type V = Batching;

    closed spec fn view(&self) -> Batching {
        Batching {
            pipeline: self.current_pipeline,
            open_batch: match self.current_batch {
                Some(batch) => Some(batch.deep_view()),
                None => None,
            },
            done: self.completed_batches.deep_view(),
            stats: self.stats,
            limit: self.max_batch_size as nat,
        }
    }
}

impl MetalCommandBatcher {
    /// A batcher whose batches hold up to `max_batch_size` calls.
    pub fn new(max_batch_size: usize) -> (batcher: Self)
        ensures
            batcher@.sound(),
            batcher@.tight(),
            batcher@ == (Batching {
                pipeline: None,
                open_batch: None,
                done: Seq::empty(),
                stats: no_stats(),
                limit: max_batch_size as nat,
            }),
    {
        let batcher = MetalCommandBatcher {
            current_pipeline: None,
            current_batch: None,
            completed_batches: Vec::new(),
            stats: BatchingStats::default(),
            max_batch_size,
        };
        assert(batcher.completed_batches.deep_view() =~= Seq::empty());
        batcher
    }

    /// Adds a draw call to the batch of its pipeline.
    pub fn record_draw(
        &mut self,
        pipeline_state_id: u64,
        vertex_count: u32,
        index_count: u32,
        instance_count: u32,
        start_vertex: u32,
        base_index: u32,
    )
        requires
            old(self)@.sound(),
            old(self)@.has_room(
                pipeline_state_id,
                (BatchedDrawCall {
                    vertex_count,
                    index_count,
                    instance_count,
                    start_vertex,
                    base_index,
                }),
            ),
        ensures
            final(self)@.sound(),
            old(self)@.tight() ==> final(self)@.tight(),
            final(self)@ == old(self)@.recorded(
                pipeline_state_id,
                (BatchedDrawCall {
                    vertex_count,
                    index_count,
                    instance_count,
                    start_vertex,
                    base_index,
                }),
            ),
    {
        let call = BatchedDrawCall {
            vertex_count,
            index_count,
            instance_count,
            start_vertex,
            base_index,
        };
        let ghost before = self@;
        proof {
            lemma_recorded_call_is_last(before, pipeline_state_id, call);
            if before.tight() {
                lemma_recorded_stays_tight(before, pipeline_state_id, call);
            }
            assert(0 <= vertex_count * instance_count <= u64::MAX) by (nonlinear_arith)
                requires
                    0 <= vertex_count <= u32::MAX,
                    0 <= instance_count <= u32::MAX,
            ;
            assert(0 <= index_count * instance_count <= u64::MAX) by (nonlinear_arith)
                requires
                    0 <= index_count <= u32::MAX,
                    0 <= instance_count <= u32::MAX,
            ;
        }
        self.stats.total_draw_calls += 1;
        self.stats.vertices_drawn += vertex_count as u64 * instance_count as u64;
        self.stats.indices_drawn += index_count as u64 * instance_count as u64;
        assert(self@ =~= before.counted(call));
        let same_pipeline = match self.current_pipeline {
            Some(pipeline) => pipeline == pipeline_state_id,
            None => false,
        };
        if !same_pipeline {
            self.flush_current_batch();
            self.stats.pipeline_changes += 1;
            self.current_pipeline = Some(pipeline_state_id);
        }
        assert(self@ =~= before.counted(call).switched(pipeline_state_id));
        let ghost switched = self@;
        assert(switched.current(pipeline_state_id).vertices == before.switched(
            pipeline_state_id,
        ).current(pipeline_state_id).vertices);
        assert(switched.current(pipeline_state_id).indices == before.switched(
            pipeline_state_id,
        ).current(pipeline_state_id).indices);
        let mut batch = match self.current_batch.take() {
            Some(batch) => batch,
            None => DrawBatch {
                pipeline_state_id,
                draw_calls: Vec::new(),
                total_vertices: 0,
                total_indices: 0,
            },
        };
        assert(batch.deep_view() =~= switched.current(pipeline_state_id));
        batch.draw_calls.push(call);
        batch.total_vertices = batch.total_vertices + vertex_count;
        batch.total_indices = batch.total_indices + index_count;
        self.stats.batched_draw_calls += 1;
        let size: usize = batch.draw_calls.len();
        self.current_batch = Some(batch);
        assert(self@ =~= switched.joined(pipeline_state_id, call));
        if size >= self.max_batch_size {
            self.flush_current_batch();
        }
    }

    /// Finishes the open batch, though it may have room left.
    pub fn flush_current_batch(&mut self)
        requires
            old(self)@.stats.render_pass_breaks < u64::MAX,
        ensures
            final(self)@ == old(self)@.flushed(),
            old(self)@.sound() ==> final(self)@.sound(),
    {
        let ghost before = self@;
        proof {
            if before.sound() {
                lemma_flushing_keeps_calls(before);
            }
        }
        match self.current_batch.take() {
            Some(batch) => {
                if batch.draw_calls.len() > 0 {
                    let ghost model = batch.deep_view();
                    self.completed_batches.push(batch);
                    self.stats.render_pass_breaks += 1;
                    assert(self.completed_batches.deep_view() =~= before.done.push(model));
                }
            },
            None => {},
        }
        assert(self@ =~= before.flushed());
    }

    /// Hands out all batches, the open one too: they hold every draw call since
    /// the last time, in order, and nothing is left for another call.
    pub fn drain_batches(&mut self) -> (batches: Vec<DrawBatch>)
        requires
            old(self)@.stats.render_pass_breaks < u64::MAX,
        ensures
            batches.deep_view() == old(self)@.flushed().done,
            final(self)@ == (Batching { done: Seq::empty(), ..old(self)@.flushed() }),
            final(self)@.flushed().done.len() == 0,
            final(self)@.tight(),
            old(self)@.sound() ==> {
                &&& final(self)@.sound()
                &&& calls_in(batches.deep_view()) == old(self)@.all_calls()
                &&& forall|i: int|
                    0 <= i < batches.deep_view().len() ==> sound_batch(
                        #[trigger] batches.deep_view()[i],
                    ) && batches.deep_view()[i].calls.len() <= most_calls(old(self)@.limit)
            },
            old(self)@.sound() && old(self)@.tight() ==> tightly_split(
                batches.deep_view(),
                old(self)@.limit,
            ),
    {
        proof {
            if self@.sound() {
                lemma_flushing_keeps_calls(self@);
                if self@.tight() {
                    lemma_flush_splits(self@);
                }
            }
        }
        self.flush_current_batch();
        let ghost flushed = self@;
        let mut batches: Vec<DrawBatch> = Vec::new();
        std::mem::swap(&mut batches, &mut self.completed_batches);
        assert(self.completed_batches.deep_view() =~= Seq::empty());
        assert(self@ =~= (Batching { done: Seq::empty(), ..flushed }));
        batches
    }

    /// The statistics so far.
    pub fn stats(&self) -> (stats: &BatchingStats)
        ensures
            *stats == self@.stats,
    {
        &self.stats
    }

    /// The number of draw calls for each finished batch, those of the open one
    /// counted too; 0 before the first batch is finished.
    pub fn average_batch_size(&self) -> (size: Ratio)
        ensures
            size == (if self@.stats.render_pass_breaks == 0 {
                Ratio { part: 0, whole: 1 }
            } else {
                Ratio {
                    part: self@.stats.batched_draw_calls as u128,
                    whole: self@.stats.render_pass_breaks as u128,
                }
            }),
    {
        if self.stats.render_pass_breaks == 0 {
            Ratio { part: 0, whole: 1 }
        } else {
            Ratio {
                part: self.stats.batched_draw_calls as u128,
                whole: self.stats.render_pass_breaks as u128,
            }
        }
    }

    /// Starts the statistics over.
    pub fn reset_stats(&mut self)
        ensures
            final(self)@ == (Batching { stats: no_stats(), ..old(self)@ }),
            old(self)@.sound() ==> final(self)@.sound(),
            old(self)@.tight() ==> final(self)@.tight(),
    {
        self.stats = BatchingStats::default();
    }
}

/// The vertices of draws, counted for every instance.
pub open spec fn vertices_of_draws(draws: Seq<(u64, BatchedDrawCall)>) -> int
    decreases draws.len(),
{
    if draws.len() == 0 {
        0
    } else {
        vertices_of_draws(draws.drop_last()) + draws.last().1.vertex_count
            * draws.last().1.instance_count
    }
}

/// The indices of draws, counted for every instance.
pub open spec fn indices_of_draws(draws: Seq<(u64, BatchedDrawCall)>) -> int
    decreases draws.len(),
{
    if draws.len() == 0 {
        0
    } else {
        indices_of_draws(draws.drop_last()) + draws.last().1.index_count
            * draws.last().1.instance_count
    }
}

/// How often a draw takes another pipeline than the one before it.
pub open spec fn changes_in(first: Option<u64>, draws: Seq<(u64, BatchedDrawCall)>) -> int
    decreases draws.len(),
{
    if draws.len() == 0 {
        0
    } else {
        let before = if draws.len() == 1 {
            first
        } else {
            Some(draws[draws.len() - 2].0)
        };
        changes_in(first, draws.drop_last()) + if before == Some(draws.last().0) {
            0int
        } else {
            1
        }
    }
}

/// The numbers that count draws, vertices, indices and changes of the pipeline
/// can hold those of the draws too.
pub open spec fn countable(state: Batching, draws: Seq<(u64, BatchedDrawCall)>) -> bool {
    &&& state.stats.total_draw_calls + draws.len() <= u64::MAX
    &&& state.stats.batched_draw_calls + draws.len() <= u64::MAX
    &&& state.stats.pipeline_changes + draws.len() <= u64::MAX
    &&& state.stats.vertices_drawn + vertices_of_draws(draws) <= u64::MAX
    &&& state.stats.indices_drawn + indices_of_draws(draws) <= u64::MAX
}

/// After any draws the counts have grown by the number of draws, by their
/// vertices and indices for every instance, and by the changes of the pipeline.
pub proof fn lemma_draws_counted(state: Batching, draws: Seq<(u64, BatchedDrawCall)>)
    requires
        countable(state, draws),
    ensures
        ({
            let after = all_recorded(state, draws);
            &&& after.stats.total_draw_calls == state.stats.total_draw_calls + draws.len()
            &&& after.stats.batched_draw_calls == state.stats.batched_draw_calls + draws.len()
            &&& after.stats.vertices_drawn == state.stats.vertices_drawn + vertices_of_draws(draws)
            &&& after.stats.indices_drawn == state.stats.indices_drawn + indices_of_draws(draws)
            &&& after.stats.pipeline_changes == state.stats.pipeline_changes + changes_in(
                state.pipeline,
                draws,
            )
            &&& after.limit == state.limit
            &&& after.pipeline == (if draws.len() == 0 {
                state.pipeline
            } else {
                Some(draws.last().0)
            })
            &&& 0 <= changes_in(state.pipeline, draws) <= draws.len()
        }),
    decreases draws.len(),
{
    if draws.len() > 0 {
        let front = draws.drop_last();
        let call = draws.last().1;
        assert(0 <= call.vertex_count * call.instance_count && 0 <= call.index_count
            * call.instance_count) by (nonlinear_arith);
        lemma_draws_not_negative(front);
        lemma_draws_counted(state, front);
        if front.len() > 0 {
            assert(front.last() == draws[draws.len() - 2]);
        }
    }
}

proof fn lemma_draws_not_negative(draws: Seq<(u64, BatchedDrawCall)>)
    ensures
        0 <= vertices_of_draws(draws),
        0 <= indices_of_draws(draws),
    decreases draws.len(),
{
    if draws.len() > 0 {
        let call = draws.last().1;
        assert(0 <= call.vertex_count * call.instance_count && 0 <= call.index_count
            * call.instance_count) by (nonlinear_arith);
        lemma_draws_not_negative(draws.drop_last());
    }
}

/// Every batch that is done was one break of the render pass.
pub proof fn lemma_breaks_counted(state: Batching, draws: Seq<(u64, BatchedDrawCall)>)
    requires
        state.sound(),
        state.stats.render_pass_breaks + draws.len() + 1 <= u64::MAX,
    ensures
        ({
            let after = all_recorded(state, draws);
            &&& after.sound()
            &&& after.stats.render_pass_breaks - state.stats.render_pass_breaks == after.done.len()
                - state.done.len()
            &&& 0 <= after.done.len() - state.done.len()
            &&& after.done.len() - state.done.len() + (if after.open_batch is Some {
                1int
            } else {
                0
            }) <= draws.len() + (if state.open_batch is Some {
                1int
            } else {
                0
            })
            &&& after.flushed().stats.render_pass_breaks - state.stats.render_pass_breaks
                == after.flushed().done.len() - state.done.len()
        }),
    decreases draws.len(),
{
    if draws.len() > 0 {
        let front = draws.drop_last();
        lemma_breaks_counted(state, front);
        let before = all_recorded(state, front);
        lemma_recorded_call_is_last(before, draws.last().0, draws.last().1);
    }
}

} // verus!
