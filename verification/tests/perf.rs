//! Translated code, caches, queues and the pace of frames.
use casa1::perf::batching::MetalCommandBatcher;
use casa1::perf::chaining::BlockChainingCache;
use casa1::perf::file_cache::FileCache;
use casa1::perf::pacing::{FramePacer, FramePacingConfig};
use casa1::perf::path_cache::PathResolutionCache;
use casa1::perf::profiler::{CompilationTier, LazyJitProfiler};
use casa1::perf::ratio::Ratio;
use casa1::perf::reads::AsyncFileReader;
use casa1::perf::shaders::{ParallelShaderCompiler, ShaderCompileStatus};
use casa1::perf::translation::AddressTranslationCache;
use casa1::perf::uploads::GpuUploadStreamer;
use std::sync::atomic::Ordering;

fn value(ratio: Ratio) -> f64 {
    ratio.part as f64 / ratio.whole as f64
}

#[test]
fn block_chaining_register_and_execute() {
    let mut cache = BlockChainingCache::new();
    cache.register_block(0x1000, 0x2000, 64, 10);
    cache.register_block(0x2000, 0x3000, 32, 5);

    assert_eq!(cache.block_count(), 2);

    // Execute 10 times to reach hot threshold
    for _ in 0..10 {
        cache.record_execution(0x1000, 0x2000).unwrap();
    }

    let block = cache.get_block(0x1000).unwrap();
    assert_eq!(block.execution_count, 10);
    assert_eq!(block.fallthrough_target, Some(0x2000));
}

#[test]
fn block_chaining_creates_chain() {
    let mut cache = BlockChainingCache::new();
    cache.register_block(0x1000, 0x2000, 64, 10);
    cache.register_block(0x2000, 0x3000, 32, 5);

    for _ in 0..10 {
        cache.record_execution(0x1000, 0x2000).unwrap();
    }

    let chained = cache.try_chain(0x1000);
    assert!(chained);
    assert_eq!(cache.active_chain_count(), 1);
}

#[test]
fn block_chaining_no_chain_for_cold_block() {
    let mut cache = BlockChainingCache::new();
    cache.register_block(0x1000, 0x2000, 64, 10);
    cache.register_block(0x2000, 0x3000, 32, 5);

    for _ in 0..5 {
        cache.record_execution(0x1000, 0x2000).unwrap();
    }

    let chained = cache.try_chain(0x1000);
    assert!(!chained);
    assert_eq!(cache.active_chain_count(), 0);
}

#[test]
fn block_chaining_break_chain() {
    let mut cache = BlockChainingCache::new();
    cache.register_block(0x1000, 0x2000, 64, 10);
    cache.register_block(0x2000, 0x3000, 32, 5);

    for _ in 0..10 {
        cache.record_execution(0x1000, 0x2000).unwrap();
    }
    cache.try_chain(0x1000);
    assert_eq!(cache.active_chain_count(), 1);

    cache.break_chain(0x1000);
    assert_eq!(cache.active_chain_count(), 0);
    assert_eq!(cache.total_chains_broken(), 1);
}

#[test]
fn block_chaining_invalidate_range() {
    let mut cache = BlockChainingCache::new();
    cache.register_block(0x1000, 0x2000, 64, 10);
    cache.register_block(0x2000, 0x3000, 32, 5);
    cache.register_block(0x3000, 0x4000, 48, 8);

    cache.invalidate_range(0x1500, 0x2500);
    assert_eq!(cache.block_count(), 2); // 0x1000 and 0x3000 remain
}

#[test]
fn block_chaining_hot_blocks() {
    let mut cache = BlockChainingCache::new();
    cache.register_block(0x1000, 0x2000, 64, 10);
    cache.register_block(0x2000, 0x3000, 32, 5);

    for _ in 0..50 {
        cache.record_execution(0x1000, 0x2000).unwrap();
    }
    for _ in 0..5 {
        cache.record_execution(0x2000, 0x3000).unwrap();
    }

    let hot = cache.hot_blocks(20);
    assert_eq!(hot.len(), 1);
    assert_eq!(hot[0].guest_address, 0x1000);
}

#[test]
fn lazy_jit_tier_progression() {
    let mut profiler = LazyJitProfiler::new(10, 100);

    // Below hot threshold
    let tier = profiler.record_execution(0x1000, 5);
    assert_eq!(tier, CompilationTier::Uncompiled);

    // At hot threshold
    for _ in 0..9 {
        profiler.record_execution(0x1000, 5);
    }
    let tier = profiler.record_execution(0x1000, 5);
    assert_eq!(tier, CompilationTier::Baseline);

    // At optimize threshold
    for _ in 0..90 {
        profiler.record_execution(0x1000, 5);
    }
    let tier = profiler.record_execution(0x1000, 5);
    assert_eq!(tier, CompilationTier::Optimized);
}

#[test]
fn lazy_jit_profiled_count() {
    let mut profiler = LazyJitProfiler::new(10, 100);
    profiler.record_execution(0x1000, 5);
    profiler.record_execution(0x2000, 3);
    profiler.record_execution(0x3000, 7);

    assert_eq!(profiler.profiled_count(), 3);
}

#[test]
fn address_translation_cache_insert_and_lookup() {
    let mut cache = AddressTranslationCache::new(100);
    cache.insert(0x1000_0000, 0x2000_0000, 4096, 0x07);

    let translation = cache.lookup(0x1000_0000).unwrap();
    assert_eq!(translation.host_address, 0x2000_0000);
    assert_eq!(translation.size, 4096);
}

#[test]
fn address_translation_cache_eviction() {
    let mut cache = AddressTranslationCache::new(3);
    cache.insert(0x1000, 0x2000, 4096, 0);
    cache.insert(0x2000, 0x3000, 4096, 0);
    cache.insert(0x3000, 0x4000, 4096, 0);
    assert_eq!(cache.entry_count(), 3);

    cache.insert(0x4000, 0x5000, 4096, 0);
    assert_eq!(cache.entry_count(), 3); // One was evicted
}

#[test]
fn address_translation_cache_invalidate_range() {
    let mut cache = AddressTranslationCache::new(100);
    cache.insert(0x1000, 0x2000, 4096, 0);
    cache.insert(0x2000, 0x3000, 4096, 0);
    cache.insert(0x3000, 0x4000, 4096, 0);

    cache.invalidate_range(0x1500, 0x2500);
    assert_eq!(cache.entry_count(), 2); // 0x1000 and 0x3000 remain
}

#[test]
fn address_translation_cache_hit_rate() {
    let mut cache = AddressTranslationCache::new(100);
    assert_eq!(value(cache.hit_rate()), 0.0);

    cache.record_hit();
    cache.record_hit();
    cache.record_miss();
    assert!((value(cache.hit_rate()) - 0.6667).abs() < 0.01);
}

#[test]
fn shader_compiler_submit_and_complete() {
    let mut compiler = ParallelShaderCompiler::new(4);
    let id = compiler.submit_job("abc123".to_string(), "vertex".to_string(), "main".to_string());
    assert_eq!(compiler.job_count(), 1);

    compiler.mark_compiling(id).unwrap();
    compiler.mark_completed(id).unwrap();

    assert_eq!(compiler.completed_count(), 1);
    let job = compiler.get_job(id).unwrap();
    assert_eq!(job.status, ShaderCompileStatus::Completed);
}

#[test]
fn shader_compiler_failed_job() {
    let mut compiler = ParallelShaderCompiler::new(4);
    let id = compiler.submit_job("def456".to_string(), "fragment".to_string(), "main".to_string());

    compiler.mark_compiling(id).unwrap();
    compiler.mark_failed(id, "syntax error".to_string()).unwrap();

    assert_eq!(compiler.failed_count(), 1);
    let job = compiler.get_job(id).unwrap();
    assert!(matches!(job.status, ShaderCompileStatus::Failed(_)));
}

#[test]
fn shader_compiler_pending_jobs_respects_concurrency() {
    let mut compiler = ParallelShaderCompiler::new(2);
    let id1 = compiler.submit_job("a".to_string(), "vertex".to_string(), "main".to_string());
    let _id2 = compiler.submit_job("b".to_string(), "vertex".to_string(), "main".to_string());
    let _id3 = compiler.submit_job("c".to_string(), "vertex".to_string(), "main".to_string());

    compiler.mark_compiling(id1).unwrap();

    // Only 1 more slot available (2 max - 1 compiling)
    let pending = compiler.pending_jobs();
    assert_eq!(pending.len(), 1);
}

#[test]
fn command_batcher_batches_same_pipeline() {
    let mut batcher = MetalCommandBatcher::new(100);

    batcher.record_draw(1, 100, 0, 1, 0, 0);
    batcher.record_draw(1, 200, 0, 1, 100, 0);
    batcher.record_draw(1, 50, 0, 1, 300, 0);

    let batches = batcher.drain_batches();
    assert_eq!(batches.len(), 1);
    assert_eq!(batches[0].draw_calls.len(), 3);
    assert_eq!(batches[0].total_vertices, 350);
}

#[test]
fn command_batcher_breaks_on_pipeline_change() {
    let mut batcher = MetalCommandBatcher::new(100);

    batcher.record_draw(1, 100, 0, 1, 0, 0);
    batcher.record_draw(1, 200, 0, 1, 0, 0);
    batcher.record_draw(2, 50, 0, 1, 0, 0); // Pipeline change

    let batches = batcher.drain_batches();
    assert_eq!(batches.len(), 2);
    assert_eq!(batches[0].draw_calls.len(), 2);
    assert_eq!(batches[1].draw_calls.len(), 1);
}

#[test]
fn command_batcher_respects_max_size() {
    let mut batcher = MetalCommandBatcher::new(2);

    batcher.record_draw(1, 100, 0, 1, 0, 0);
    batcher.record_draw(1, 200, 0, 1, 0, 0);
    batcher.record_draw(1, 50, 0, 1, 0, 0); // Should start new batch

    let batches = batcher.drain_batches();
    assert_eq!(batches.len(), 2);
}

#[test]
fn command_batcher_stats() {
    let mut batcher = MetalCommandBatcher::new(100);
    batcher.record_draw(1, 100, 50, 1, 0, 0);
    batcher.record_draw(1, 200, 100, 2, 0, 0);

    let stats = batcher.stats();
    assert_eq!(stats.total_draw_calls, 2);
    assert_eq!(stats.vertices_drawn, 500); // 100*1 + 200*2
    assert_eq!(stats.indices_drawn, 250);  // 50*1 + 100*2
}

#[test]
fn upload_streamer_allocate() {
    let mut streamer = GpuUploadStreamer::new(4096);
    let buf = streamer.create_streaming_buffer(4096);

    let offset1 = streamer.allocate(buf, 1024).unwrap();
    assert_eq!(offset1, 0);

    let offset2 = streamer.allocate(buf, 2048).unwrap();
    assert_eq!(offset2, 1024);

    assert_eq!(streamer.total_bytes_uploaded(), 3072);
}

#[test]
fn upload_streamer_wrap_around() {
    let mut streamer = GpuUploadStreamer::new(1024);
    let buf = streamer.create_streaming_buffer(1024);

    streamer.allocate(buf, 512).unwrap();
    streamer.allocate(buf, 512).unwrap();

    // Buffer is full, next allocation wraps
    let offset = streamer.allocate(buf, 256).unwrap();
    assert_eq!(offset, 0);
}

#[test]
fn upload_streamer_advance_frame_resets() {
    let mut streamer = GpuUploadStreamer::new(4096);
    let buf = streamer.create_streaming_buffer(4096);

    streamer.allocate(buf, 3000).unwrap();
    streamer.advance_frame();

    // New frame should reset write offset
    let offset = streamer.allocate(buf, 100).unwrap();
    assert_eq!(offset, 0);
}

#[test]
fn frame_pacer_config_default() {
    let config = FramePacingConfig::default();
    assert_eq!(config.target_fps, 60);
    assert!(config.vsync_enabled);
    assert_eq!(config.max_frame_latency, 2);
}

#[test]
fn frame_pacer_reset_stats() {
    let config = FramePacingConfig::default();
    let mut pacer = FramePacer::new(config);

    pacer.begin_frame();
    pacer.end_frame();
    assert_eq!(pacer.stats().frames_rendered, 1);

    pacer.reset_stats();
    assert_eq!(pacer.stats().frames_rendered, 0);
}

#[test]
fn file_cache_insert_get() {
    let mut cache = FileCache::new(1024);

    // Miss
    assert!(cache.get("test.txt").is_none());
    let (hits, misses, _) = cache.stats();
    assert_eq!(hits, 0);
    assert_eq!(misses, 1);

    // Insert
    cache.insert("test.txt", vec![1, 2, 3, 4]).unwrap();
    assert_eq!(cache.entry_count(), 1);

    // Hit
    let data = cache.get("test.txt").unwrap();
    assert_eq!(data, &[1, 2, 3, 4]);
    let (hits, _, rate) = cache.stats();
    assert_eq!(hits, 1);
    assert!(value(rate) > 0.0);
}

#[test]
fn file_cache_eviction() {
    let mut cache = FileCache::new(20); // Very small cache

    cache.insert("a.txt", vec![0u8; 10]).unwrap();
    cache.insert("b.txt", vec![0u8; 10]).unwrap();
    assert_eq!(cache.entry_count(), 2);

    // Insert a third file — should evict the LRU (a.txt)
    cache.insert("c.txt", vec![0u8; 10]).unwrap();
    assert_eq!(cache.entry_count(), 2);
    assert!(cache.get("a.txt").is_none(), "a.txt should have been evicted");
    assert!(cache.get("b.txt").is_some(), "b.txt should still be cached");
    assert!(cache.get("c.txt").is_some(), "c.txt should be cached");
}

#[test]
fn file_cache_invalidate() {
    let mut cache = FileCache::new(1024);
    cache.insert("test.txt", vec![1, 2, 3]).unwrap();
    assert!(cache.get("test.txt").is_some());

    cache.invalidate("test.txt");
    assert!(cache.get("test.txt").is_none());
    assert_eq!(cache.entry_count(), 0);
}

#[test]
fn file_cache_too_large() {
    let mut cache = FileCache::new(10);
    let result = cache.insert("big.txt", vec![0u8; 100]);
    assert!(result.is_err());
}

#[test]
fn file_cache_stats() {
    let mut cache = FileCache::new(1024);
    cache.insert("a.txt", vec![1]).unwrap();

    cache.get("a.txt"); // hit
    cache.get("a.txt"); // hit
    cache.get("b.txt"); // miss

    let (hits, misses, rate) = cache.stats();
    assert_eq!(hits, 2);
    assert_eq!(misses, 1); // only "b.txt" was a miss
    assert!((value(rate) - (2.0 / 3.0)).abs() < 0.01);
}

#[test]
fn path_resolution_cache() {
    let mut cache = PathResolutionCache::new();

    let call_count = std::sync::atomic::AtomicUsize::new(0);

    // First call — miss, resolver called
    let result = cache.resolve("C:\\Users\\test.txt", |path| {
        call_count.fetch_add(1, Ordering::Relaxed);
        Ok(format!("/host{}", path.replace('\\', "/")))
    }).unwrap();
    assert_eq!(result, "/hostC:/Users/test.txt");
    assert_eq!(call_count.load(Ordering::Relaxed), 1);

    // Second call — hit, resolver NOT called
    let result2 = cache.resolve("C:\\Users\\test.txt", |path| {
        call_count.fetch_add(1, Ordering::Relaxed);
        Ok(format!("/host{}", path.replace('\\', "/")))
    }).unwrap();
    assert_eq!(result2, result);
    assert_eq!(call_count.load(Ordering::Relaxed), 1, "resolver should not be called on cache hit");

    let (hits, misses, _) = cache.stats();
    assert_eq!(hits, 1);
    assert_eq!(misses, 1);
}

#[test]
fn path_resolution_cache_invalidate_prefix() {
    let mut cache = PathResolutionCache::new();

    cache.resolve("C:\\Windows\\a.txt", |p| Ok(p.to_string())).unwrap();
    cache.resolve("C:\\Windows\\b.txt", |p| Ok(p.to_string())).unwrap();
    cache.resolve("C:\\Game\\c.txt", |p| Ok(p.to_string())).unwrap();

    assert_eq!(cache.entry_count(), 3);

    cache.invalidate_prefix("C:\\Windows");
    assert_eq!(cache.entry_count(), 1);
    assert!(cache.cache.contains_key("C:\\Game\\c.txt"));
}

#[test]
fn async_file_reader_wait_timeout() {
    let mut reader = AsyncFileReader::new();
    // Request for non-existent ID should timeout
    let result = reader.wait_for(99999, 10);
    assert!(result.is_err());
}
