//! What the caches keep, and what the queues and counters say.
use casa1::error::ReasonCode;
use casa1::names::NameMap;
use casa1::perf::batching::MetalCommandBatcher;
use casa1::perf::chaining::BlockChainingCache;
use casa1::perf::file_cache::FileCache;
use casa1::perf::mapped::read_mapped;
use casa1::perf::pacing::{FramePacer, FramePacingConfig, FrameRate};
use casa1::perf::path_cache::PathResolutionCache;
use casa1::perf::profiler::{CompilationTier, LazyJitProfiler};
use casa1::perf::ratio::{hit_share, Ratio};
use casa1::perf::reads::{read_part, AsyncFileReader, CompletedRead, ReadProgress};
use casa1::perf::shaders::{ParallelShaderCompiler, ShaderCompileStatus};
use casa1::perf::translation::AddressTranslationCache;
use casa1::perf::uploads::GpuUploadStreamer;
use std::time::{Duration, Instant};

fn equal(ratio: Ratio, part: u128, whole: u128) -> bool {
    ratio.whole > 0 && ratio.part * whole == part * ratio.whole
}

// ---------------------------------------------------------------------------
// Caches
// ---------------------------------------------------------------------------

#[test]
fn the_file_that_was_used_least_recently_leaves_first() {
    let mut cache = FileCache::new(6);
    cache.insert("a", vec![1, 1]).unwrap();
    cache.insert("b", vec![2, 2]).unwrap();
    cache.insert("c", vec![3, 3]).unwrap();
    assert!(cache.get("a").is_some());
    cache.insert("d", vec![4, 4]).unwrap();
    assert!(cache.get("b").is_none());
    assert_eq!(cache.get("a"), Some(&[1u8, 1][..]));
    assert_eq!(cache.entry_count(), 3);
    assert_eq!(cache.used_bytes(), 6);
    let (hits, misses, share) = cache.stats();
    assert_eq!((hits, misses), (2, 1));
    assert!(equal(share, 2, 3));
}

#[test]
fn a_file_larger_than_the_cache_is_refused() {
    let mut cache = FileCache::new(3);
    cache.insert("a", vec![1]).unwrap();
    assert_eq!(
        cache.insert("b", vec![0; 4]).unwrap_err().code,
        ReasonCode::RcIo
    );
    assert_eq!(cache.used_bytes(), 1);
    cache.insert("a", vec![2, 2]).unwrap();
    assert_eq!(cache.used_bytes(), 2);
    cache.invalidate("a");
    assert_eq!(cache.used_bytes(), 0);
}

#[test]
fn a_path_is_resolved_once() {
    let mut cache = PathResolutionCache::new();
    let found = cache.resolve("C:\\a", |path| Ok(format!("/ge/{path}"))).unwrap();
    assert_eq!(found, "/ge/C:\\a");
    let again = cache.resolve("C:\\a", |_| Ok("other".to_string())).unwrap();
    assert_eq!(again, found);
    let (hits, misses, share) = cache.stats();
    assert_eq!((hits, misses), (1, 1));
    assert!(equal(share, 1, 2));
    cache.resolve("C:\\b", |_| Ok("/b".to_string())).unwrap();
    cache.resolve("D:\\a", |_| Ok("/d".to_string())).unwrap();
    cache.invalidate_prefix("C:");
    assert_eq!(cache.entry_count(), 1);
}

#[test]
fn the_translation_that_was_used_least_leaves_first() {
    let mut cache = AddressTranslationCache::new(2);
    cache.insert(0x10, 0x1000, 8, 1);
    cache.insert(0x20, 0x2000, 8, 1);
    assert_eq!(cache.lookup(0x10).unwrap().access_count, 1);
    cache.insert(0x30, 0x3000, 8, 1);
    assert_eq!(cache.entry_count(), 2);
    assert!(cache.lookup(0x20).is_none());
    assert_eq!(cache.lookup(0x30).unwrap().host_address, 0x3000);
    cache.invalidate_range(0x30, 0x31);
    assert!(cache.lookup(0x30).is_none());
    cache.record_hit();
    cache.record_hit();
    cache.record_miss();
    assert!(equal(cache.hit_rate(), 2, 3));
}

#[test]
fn a_share_lies_between_nothing_and_all() {
    assert!(equal(hit_share(0, 0), 0, 1));
    assert!(equal(hit_share(3, 1), 3, 4));
    let most = hit_share(u64::MAX, u64::MAX);
    assert!(equal(most, 1, 2));
}

#[test]
fn names_are_looked_up() {
    let mut map: NameMap<u8> = NameMap::new();
    map.insert("a".to_string(), 1);
    map.insert("a".to_string(), 2);
    assert_eq!(map.len(), 1);
    assert_eq!(map.get("a"), Some(&2));
    assert!(!map.contains_key("A"));
    assert_eq!(map.remove("a"), Some(2));
    assert_eq!(map.remove("a"), None);
    assert_eq!(map.names().len(), 0);
}

// ---------------------------------------------------------------------------
// Translated code
// ---------------------------------------------------------------------------

#[test]
fn a_patch_reaches_from_the_end_of_one_block_to_the_next() {
    let mut cache = BlockChainingCache::new();
    cache.register_block(1, 0x1000, 0x40, 4);
    cache.register_block(2, 0x1100, 0x40, 4);
    assert_eq!(cache.compute_patch_offset(1, 2), 0xc0);
    assert_eq!(cache.compute_patch_offset(2, 1), 0);
    assert_eq!(cache.compute_patch_offset(1, 9), 0);
}

#[test]
fn a_chain_that_is_broken_is_counted() {
    let mut cache = BlockChainingCache::new();
    cache.register_block(1, 0x1000, 0x40, 4);
    cache.register_block(2, 0x1100, 0x40, 4);
    for _ in 0..10 {
        cache.record_execution(1, 2).unwrap();
    }
    assert_eq!(
        cache.record_execution(9, 1).unwrap_err().code,
        ReasonCode::RcUnimplInsn
    );
    assert!(cache.try_chain(1));
    assert!(cache.get_block(1).unwrap().is_chained);
    assert_eq!(cache.total_chains_created(), 1);
    assert_eq!(cache.hot_blocks(10).len(), 1);
    cache.break_chain(1);
    assert_eq!(cache.active_chain_count(), 0);
    assert_eq!(cache.total_chains_broken(), 1);
    assert!(!cache.get_block(1).unwrap().is_chained);
    cache.invalidate_range(1, 2);
    assert_eq!(cache.block_count(), 1);
}

#[test]
fn every_chain_that_was_made_is_active_or_broken() {
    let mut cache = BlockChainingCache::new();
    for address in 1..=3u64 {
        cache.register_block(address, 0x1000 * address, 0x40, 4);
    }
    for address in 1..=3u64 {
        for _ in 0..10 {
            cache.record_execution(address, address % 3 + 1).unwrap();
        }
        assert!(cache.try_chain(address));
    }
    assert!(cache.try_chain(1));
    cache.record_execution(1, 3).unwrap();
    cache.invalidate_range(3, 4);
    assert_eq!(cache.total_chains_created(), 4);
    assert_eq!(cache.active_chain_count(), 1);
    assert_eq!(cache.total_chains_broken(), 3);
    let hot: Vec<u64> = cache
        .hot_blocks(10)
        .iter()
        .map(|block| block.guest_address)
        .collect();
    assert_eq!(hot, vec![1, 2]);
}

#[test]
fn running_a_block_does_not_compile_it() {
    let mut profiler = LazyJitProfiler::new(1, 2);
    for _ in 0..5 {
        profiler.record_execution(0x10, 1);
    }
    assert_eq!(profiler.tier_counts(), (1, 0, 0));
    assert_eq!(profiler.get_profile(0x10).unwrap().execution_count, 5);
    profiler.record_execution(0x11, 8);
    profiler.record_execution(0x11, 9);
    assert_eq!(profiler.get_profile(0x11).unwrap().instruction_count, 8);
    assert_eq!(profiler.tier_counts(), (2, 0, 0));
    profiler.mark_compiled(0x10, CompilationTier::Optimized, 1);
    profiler.mark_compiled(0x20, CompilationTier::Optimized, 1);
    profiler.record_execution(0x10, 1);
    assert_eq!(profiler.tier_counts(), (1, 0, 1));
}

#[test]
fn a_refusal_says_what_was_asked_for() {
    let mut blocks = BlockChainingCache::new();
    let error = blocks.record_execution(0xabc, 1).unwrap_err();
    assert_eq!(error.message, "block at 0xabc not found");
    let mut compiler = ParallelShaderCompiler::new(1);
    let error = compiler.mark_compiling(7).unwrap_err();
    assert_eq!(error.message, "shader job 7 not found");
    let mut streamer = GpuUploadStreamer::new(50);
    let buffer = streamer.create_streaming_buffer(100);
    assert_eq!(
        streamer.allocate(9, 1).unwrap_err().message,
        "streaming buffer 9 not found"
    );
    assert_eq!(
        streamer.allocate(buffer, 101).unwrap_err().message,
        "streaming allocation 101 exceeds buffer size 100"
    );
    assert_eq!(
        streamer.allocate(buffer, 60).unwrap_err().message,
        "streaming allocation 60 exceeds ring buffer size 50"
    );
    let mut cache = FileCache::new(2);
    assert_eq!(
        cache.insert("a", vec![0; 3]).unwrap_err().message,
        "file cache: data size 3 exceeds max cache size 2"
    );
    let mut buffer = vec![0u8; 2];
    assert_eq!(
        read_mapped(Some(&[1, 2, 3][..]), 2, &mut buffer)
            .unwrap_err()
            .message,
        "mmap: read at offset 2 + 2 exceeds file size 3"
    );
    let mut reader = AsyncFileReader::new();
    let error = reader.wait_for(5, 0).unwrap_err();
    assert_eq!(error.message, "async read 5 not found");
    let error = reader.finish_read(6, None).unwrap_err();
    assert_eq!(error.message, "async read 6: thread panicked");
}

#[test]
fn a_block_rises_through_the_tiers() {
    let mut profiler = LazyJitProfiler::new(2, 4);
    let tiers: Vec<CompilationTier> =
        (0..5).map(|_| profiler.record_execution(0x10, 3)).collect();
    assert_eq!(
        tiers,
        vec![
            CompilationTier::Uncompiled,
            CompilationTier::Baseline,
            CompilationTier::Baseline,
            CompilationTier::Optimized,
            CompilationTier::Optimized
        ]
    );
    profiler.record_execution(0x20, 3);
    profiler.mark_compiled(0x10, CompilationTier::Baseline, 7);
    profiler.mark_compiled(0x30, CompilationTier::Baseline, 7);
    assert_eq!(profiler.get_profile(0x10).unwrap().compile_time_us, 7);
    assert!(profiler.get_profile(0x10).unwrap().clone().last_compiled.is_some());
    assert!(profiler.get_profile(0x30).is_none());
    let (uncompiled, baseline, optimized) = profiler.tier_counts();
    assert_eq!(uncompiled + baseline + optimized, profiler.profiled_count());
    assert_eq!((uncompiled, baseline, optimized), (1, 1, 0));
}

// ---------------------------------------------------------------------------
// Drawing
// ---------------------------------------------------------------------------

#[test]
fn calls_are_drawn_in_the_order_in_which_they_came() {
    let mut batcher = MetalCommandBatcher::new(2);
    for (pipeline, start) in [(1u64, 0u32), (1, 3), (1, 6), (2, 9), (1, 12)] {
        batcher.record_draw(pipeline, 3, 0, 1, start, 0);
    }
    let batches = batcher.drain_batches();
    let starts: Vec<u32> = batches
        .iter()
        .flat_map(|batch| batch.draw_calls.iter().map(|call| call.start_vertex))
        .collect();
    assert_eq!(starts, vec![0, 3, 6, 9, 12]);
    assert!(batches.iter().all(|batch| batch.draw_calls.len() <= 2));
    assert_eq!(batcher.stats().total_draw_calls, 5);
    assert_eq!(batcher.stats().vertices_drawn, 15);
    batcher.reset_stats();
    assert_eq!(batcher.stats().total_draw_calls, 0);
}

#[test]
fn a_batch_ends_only_where_it_has_to() {
    let mut batcher = MetalCommandBatcher::new(3);
    for pipeline in [1u64, 1, 1, 1, 2, 2, 1] {
        batcher.record_draw(pipeline, 3, 0, 1, 0, 0);
    }
    let batches = batcher.drain_batches();
    let shape: Vec<(u64, usize)> = batches
        .iter()
        .map(|batch| (batch.pipeline_state_id, batch.draw_calls.len()))
        .collect();
    assert_eq!(shape, vec![(1, 3), (1, 1), (2, 2), (1, 1)]);
    assert_eq!(batches[0].total_vertices, 9);
    assert_eq!(batcher.drain_batches().len(), 0);
}

#[test]
fn allocations_follow_each_other_within_a_frame() {
    let mut streamer = GpuUploadStreamer::new(1 << 20);
    let buffer = streamer.create_streaming_buffer(1000);
    let first = streamer.allocate(buffer, 100).unwrap();
    let second = streamer.allocate(buffer, 100).unwrap();
    assert!(second >= first + 100);
    for (id, size) in [(buffer, 10_000), (buffer + 1, 1)] {
        assert_eq!(
            streamer.allocate(id, size).unwrap_err().code,
            ReasonCode::RcD3dInvalidState
        );
    }
    streamer.advance_frame();
    assert_eq!(streamer.allocate(buffer, 100).unwrap(), first);
    assert_eq!(streamer.total_bytes_uploaded(), 300);
    assert_eq!(streamer.buffer_count(), 1);
    streamer.destroy_buffer(buffer);
    assert_eq!(streamer.buffer_count(), 0);
}

#[test]
fn no_more_shaders_are_compiled_at_a_time_than_the_limit() {
    let mut compiler = ParallelShaderCompiler::new(1);
    let name = |text: &str| text.to_string();
    let one = compiler.submit_job(name("h1"), name("vertex"), name("main"));
    let two = compiler.submit_job(name("h2"), name("pixel"), name("main"));
    assert_eq!(compiler.pending_jobs().len(), 1);
    compiler.mark_compiling(one).unwrap();
    assert_eq!(compiler.pending_jobs().len(), 0);
    compiler.mark_failed(one, name("bad")).unwrap();
    assert_eq!(compiler.failed_count(), 1);
    assert!(matches!(
        &compiler.get_job(one).unwrap().status,
        ShaderCompileStatus::Failed(reason) if reason == "bad"
    ));
    assert_eq!(compiler.pending_jobs()[0].id, two);
    assert_eq!(
        compiler.mark_completed(two + 1).unwrap_err().code,
        ReasonCode::RcDxilInvalid
    );
}

#[test]
fn a_shader_counts_by_what_became_of_it() {
    let mut compiler = ParallelShaderCompiler::new(4);
    let name = |text: &str| text.to_string();
    let id = compiler.submit_job(name("h"), name("vertex"), name("main"));
    compiler.mark_completed(id).unwrap();
    compiler.mark_completed(id).unwrap();
    assert_eq!(compiler.job_count(), 1);
    assert_eq!(compiler.completed_count(), 1);
    compiler.mark_failed(id, name("late")).unwrap();
    assert_eq!(compiler.completed_count(), 0);
    assert_eq!(compiler.failed_count(), 1);
    compiler.mark_compiling(id).unwrap();
    assert_eq!(compiler.failed_count(), 0);
}

// ---------------------------------------------------------------------------
// Frames
// ---------------------------------------------------------------------------

fn pacer(target_fps: u32) -> FramePacer {
    FramePacer::new(FramePacingConfig {
        target_fps,
        vsync_enabled: true,
        max_frame_latency: 2,
    })
}

#[test]
fn a_frame_lasts_from_its_beginning_to_its_end() {
    let mut pacer = pacer(100);
    let start = Instant::now();
    let later = |milliseconds: u64| start + Duration::from_millis(milliseconds);
    assert!(!pacer.in_frame());
    pacer.end_frame_at(start);
    assert_eq!(pacer.stats().frames_rendered, 0);
    assert_eq!(pacer.frame_remaining_time_at(start), 0);
    assert_eq!(pacer.begin_frame_at(start), 0);
    assert!(pacer.in_frame());
    assert_eq!(pacer.frame_remaining_time_at(later(4)), 6_000_000);
    assert_eq!(pacer.frame_remaining_time_at(later(11)), 0);
    pacer.end_frame_at(later(7));
    assert_eq!(pacer.stats().last_frame_time_ns, 7_000_000);
    assert_eq!(pacer.begin_frame_at(later(10)), 10_000_000);
    assert_eq!(pacer.begin_frame_at(later(13)), 3_000_000);
}

#[test]
fn the_clock_tells_frames_apart() {
    let mut pacer = pacer(1);
    assert_eq!(pacer.begin_frame(), 0);
    assert!(pacer.frame_remaining_time() > 0);
    pacer.end_frame();
    assert_eq!(pacer.stats().frames_rendered, 1);
    let first = pacer.begin_frame();
    assert!(first >= pacer.stats().last_frame_time_ns);
}

#[test]
fn frames_are_counted_and_measured() {
    let mut pacer = pacer(100);
    for time in [10_000_000u64, 10_000_000, 20_000_000] {
        pacer.record_frame(time);
    }
    let stats = pacer.stats();
    assert_eq!(stats.frames_rendered, 3);
    assert_eq!(stats.total_frame_time_ns, 40_000_000);
    assert_eq!(stats.min_frame_time_ns, 10_000_000);
    assert_eq!(stats.max_frame_time_ns, 20_000_000);
    assert_eq!(stats.last_frame_time_ns, 20_000_000);
    assert_eq!(stats.frames_dropped, 1);
    assert!(equal(pacer.average_fps(), 75, 1));
    assert!(matches!(
        pacer.one_percent_low_fps(),
        FrameRate::PerSecond(rate) if equal(rate, 50, 1)
    ));
}

#[test]
fn what_is_left_of_a_frame_is_waited_for() {
    let pacer = pacer(100);
    assert_eq!(pacer.remaining_after(4_000_000), 6_000_000);
    assert_eq!(pacer.remaining_after(11_000_000), 0);
}

#[test]
fn a_frame_begins_and_ends_on_the_clock() {
    let mut pacer = pacer(60);
    pacer.begin_frame();
    pacer.end_frame();
    pacer.begin_frame();
    assert_eq!(pacer.stats().frames_rendered, 1);
    assert!(pacer.frame_remaining_time() <= 16_666_667);
    pacer.set_config(FramePacingConfig {
        target_fps: 30,
        vsync_enabled: false,
        max_frame_latency: 1,
    });
    assert_eq!(pacer.config().target_fps, 30);
    pacer.reset_stats();
    assert_eq!(pacer.stats().frames_rendered, 0);
}

// ---------------------------------------------------------------------------
// Files
// ---------------------------------------------------------------------------

#[test]
fn a_part_of_a_file_ends_with_the_file() {
    assert_eq!(read_part(&[1, 2, 3, 4], 1, 2), vec![2, 3]);
    assert_eq!(read_part(&[1, 2, 3, 4], 3, 9), vec![4]);
    assert_eq!(read_part(&[1, 2], 5, 1), Vec::<u8>::new());
}

#[test]
fn a_read_is_handed_out_once() {
    let mut reader = AsyncFileReader::new();
    let id = reader.submit_read("f".to_string(), 0, 4);
    assert!(matches!(reader.wait_for(id, 0).unwrap(), ReadProgress::Running));
    let finished = CompletedRead {
        data: vec![1, 2],
        elapsed_us: 5,
    };
    assert_eq!(reader.finish_read(id, Some(finished)).unwrap(), vec![1, 2]);
    assert_eq!(
        reader.wait_for(id + 1, 0).unwrap_err().code,
        ReasonCode::RcWin32Timeout
    );
}

#[test]
fn a_read_that_broke_off_is_an_error() {
    let mut reader = AsyncFileReader::new();
    let id = reader.submit_read("f".to_string(), 0, 4);
    assert!(matches!(reader.wait_for(id, 0), Ok(ReadProgress::Running)));
    assert_eq!(
        reader.finish_read(id, None).unwrap_err().code,
        ReasonCode::RcIo
    );
}

#[test]
fn a_mapped_file_is_read_within_its_bounds() {
    let contents = [1u8, 2, 3, 4];
    let mut buffer = vec![0u8; 2];
    read_mapped(Some(&contents[..]), 1, &mut buffer).unwrap();
    assert_eq!(buffer, vec![2, 3]);
    let error = read_mapped(Some(&contents[..]), 3, &mut buffer).unwrap_err();
    assert_eq!(error.code, ReasonCode::RcMemoryAccessViolation);
    assert_eq!(buffer, vec![2, 3]);
    let error = read_mapped(None, 0, &mut buffer).unwrap_err();
    assert_eq!(error.code, ReasonCode::RcIo);
}
