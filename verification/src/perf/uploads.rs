//! Streaming of data to the graphics processor through long-lived buffers.
use crate::error::{AppError, AppResult, ReasonCode};
use crate::text::{decimal, noted, push_decimal};
use std::collections::BTreeMap;
use vstd::prelude::*;

verus! {

broadcast use vstd::std_specs::btree::group_btree_axioms;

/// A buffer that stays mapped and is filled anew in every frame.
#[derive(Debug, Clone, Copy)]
pub struct StreamingBuffer {
    pub id: u64,
    pub size: usize,
    pub frame_used: u64,
    pub write_offset: usize,
    pub total_uploaded: u64,
}

/// `buffer` as a frame finds it: one that was last used in another frame is
/// empty again.
pub open spec fn in_frame(buffer: StreamingBuffer, frame: u64) -> StreamingBuffer {
    if buffer.frame_used != frame {
        StreamingBuffer { write_offset: 0, frame_used: frame, ..buffer }
    } else {
        buffer
    }
}

/// `buffer`, written from its start again where `size` bytes would run over
/// `limit` but fit in by themselves.
pub open spec fn wrapped(buffer: StreamingBuffer, size: usize, limit: usize) -> StreamingBuffer {
    if buffer.write_offset + size > limit && size <= limit {
        StreamingBuffer { write_offset: 0, ..buffer }
    } else {
        buffer
    }
}

/// `buffer` in `frame`, ready to take `size` bytes where it can: it starts over
/// at its own end and at the end of the ring.
pub open spec fn prepared(buffer: StreamingBuffer, frame: u64, size: usize, ring: usize) -> StreamingBuffer {
    let current = wrapped(in_frame(buffer, frame), size, buffer.size);
    if size > buffer.size {
        current
    } else {
        wrapped(current, size, ring)
    }
}

/// What is left after `size` bytes were taken from `buffer`.
pub open spec fn filled(buffer: StreamingBuffer, size: usize) -> StreamingBuffer {
    StreamingBuffer {
        write_offset: (buffer.write_offset + size) as usize,
        total_uploaded: (buffer.total_uploaded + size) as u64,
        ..buffer
    }
}

/// Hands out room in streaming buffers.
pub struct GpuUploadStreamer {
    buffers: BTreeMap<u64, StreamingBuffer>,
    next_buffer_id: u64,
    current_frame: u64,
    ring_buffer_size: usize,
    total_bytes_uploaded: u64,
}

/// The refusal of an allocation that does not fit.
fn too_large<T>(size: usize, relation: &str, limit: usize) -> (outcome: AppResult<T>)
    ensures
        outcome matches Err(error) && error.code == ReasonCode::RcD3dInvalidState && error.message@
            == "streaming allocation "@ + decimal(size as nat) + relation@ + decimal(limit as nat),
{
    let mut message: String = noted("streaming allocation ", size as u64, relation);
    push_decimal(&mut message, limit as u64);
    Err(AppError::new(ReasonCode::RcD3dInvalidState, &message))
}

impl GpuUploadStreamer {
    pub closed spec fn buffers(&self) -> Map<u64, StreamingBuffer> {
        self.buffers@
    }

    /// The number of the next buffer.
    pub closed spec fn next_id(&self) -> u64 {
        self.next_buffer_id
    }

    pub closed spec fn frame(&self) -> u64 {
        self.current_frame
    }

    /// The size of the ring that no allocation may run over.
    pub closed spec fn ring(&self) -> usize {
        self.ring_buffer_size
    }

    /// Bytes handed out, modulo 2^64.
    pub closed spec fn uploaded(&self) -> u64 {
        self.total_bytes_uploaded
    }

    /// No buffer is written past its end.
    pub open spec fn valid(&self) -> bool {
        forall|id: u64| #[trigger]
            self.buffers().contains_key(id) ==> self.buffers()[id].write_offset
                <= self.buffers()[id].size
    }

    pub fn new(ring_buffer_size: usize) -> (streamer: Self)
        ensures
            streamer.valid(),
            streamer.buffers() == Map::<u64, StreamingBuffer>::empty(),
            streamer.next_id() == 1,
            streamer.frame() == 0,
            streamer.ring() == ring_buffer_size,
            streamer.uploaded() == 0,
    {
        GpuUploadStreamer {
            buffers: BTreeMap::new(),
            next_buffer_id: 1,
            current_frame: 0,
            ring_buffer_size,
            total_bytes_uploaded: 0,
        }
    }

    /// Makes an empty buffer and returns its number.
    pub fn create_streaming_buffer(&mut self, size: usize) -> (id: u64)
        requires
            old(self).valid(),
        ensures
            final(self).valid(),
            id == old(self).next_id(),
            final(self).next_id() == (old(self).next_id() + 1) % 0x1_0000_0000_0000_0000,
            final(self).buffers() == old(self).buffers().insert(
                id,
                (StreamingBuffer {
                    id,
                    size,
                    frame_used: old(self).frame(),
                    write_offset: 0,
                    total_uploaded: 0,
                }),
            ),
            final(self).frame() == old(self).frame(),
            final(self).ring() == old(self).ring(),
            final(self).uploaded() == old(self).uploaded(),
    {
        let id: u64 = self.next_buffer_id;
        self.next_buffer_id = id.wrapping_add(1);
        self.buffers.insert(
            id,
            StreamingBuffer {
                id,
                size,
                frame_used: self.current_frame,
                write_offset: 0,
                total_uploaded: 0,
            },
        );
        assert forall|other: u64| #[trigger] self.buffers().contains_key(
            other,
        ) implies self.buffers()[other].write_offset <= self.buffers()[other].size by {
            assert(other == id || old(self).buffers().contains_key(other));
        }
        id
    }

    /// Takes `size` bytes of a buffer for the current frame and returns where
    /// they start. A buffer that would run over its end or the ring's is
    /// written from its start again. An unknown buffer is an error, and so are
    /// more bytes than the buffer or the ring has.
    pub fn allocate(&mut self, buffer_id: u64, size: usize) -> (outcome: AppResult<usize>)
        requires
            old(self).valid(),
            old(self).buffers().contains_key(buffer_id) ==> old(self).buffers()[buffer_id].total_uploaded
                + size <= u64::MAX,
        ensures
            final(self).valid(),
            outcome is Ok <==> {
                &&& old(self).buffers().contains_key(buffer_id)
                &&& size <= old(self).buffers()[buffer_id].size
                &&& size <= old(self).ring()
            },
            outcome matches Err(error) ==> error.code == ReasonCode::RcD3dInvalidState,
            !old(self).buffers().contains_key(buffer_id) ==> final(self).buffers() == old(self).buffers(),
            old(self).buffers().contains_key(buffer_id) ==> {
                let ready = prepared(
                    old(self).buffers()[buffer_id],
                    old(self).frame(),
                    size,
                    old(self).ring(),
                );
                &&& final(self).buffers() == old(self).buffers().insert(
                    buffer_id,
                    if outcome is Ok {
                        filled(ready, size)
                    } else {
                        ready
                    },
                )
                &&& outcome matches Ok(offset) ==> {
                    &&& offset == ready.write_offset
                    &&& offset + size <= old(self).buffers()[buffer_id].size
                    &&& offset + size <= old(self).ring()
                }
            },
            final(self).uploaded() == (if outcome is Ok {
                ((old(self).uploaded() + size) % 0x1_0000_0000_0000_0000) as u64
            } else {
                old(self).uploaded()
            }),
            final(self).next_id() == old(self).next_id(),
            final(self).frame() == old(self).frame(),
            final(self).ring() == old(self).ring(),
    {
        let found = match self.buffers.get(&buffer_id) {
            Some(buffer) => *buffer,
            None => {
                return Err(
                    AppError::new(
                        ReasonCode::RcD3dInvalidState,
                        &noted("streaming buffer ", buffer_id, " not found"),
                    ),
                );
            },
        };
        let mut buffer = found;
        if buffer.frame_used != self.current_frame {
            buffer.write_offset = 0;
            buffer.frame_used = self.current_frame;
        }
        if size > buffer.size {
            self.buffers.insert(buffer_id, buffer);
            return too_large(size, " exceeds buffer size ", buffer.size);
        }
        if size > buffer.size - buffer.write_offset {
            buffer.write_offset = 0;
        }
        if size > self.ring_buffer_size {
            self.buffers.insert(buffer_id, buffer);
            return too_large(size, " exceeds ring buffer size ", self.ring_buffer_size);
        }
        if buffer.write_offset > self.ring_buffer_size - size {
            buffer.write_offset = 0;
        }
        assert(buffer == prepared(found, self.current_frame, size, self.ring_buffer_size));
        let offset: usize = buffer.write_offset;
        buffer.write_offset = offset + size;
        buffer.total_uploaded = buffer.total_uploaded + size as u64;
        self.buffers.insert(buffer_id, buffer);
        self.total_bytes_uploaded = self.total_bytes_uploaded.wrapping_add(size as u64);
        Ok(offset)
    }

    /// Goes on to the next frame; the frame number wraps around.
    pub fn advance_frame(&mut self)
        ensures
            final(self).frame() == (old(self).frame() + 1) % 0x1_0000_0000_0000_0000,
            final(self).buffers() == old(self).buffers(),
            final(self).next_id() == old(self).next_id(),
            final(self).ring() == old(self).ring(),
            final(self).uploaded() == old(self).uploaded(),
    {
        self.current_frame = self.current_frame.wrapping_add(1);
    }

    pub fn ring_buffer_size(&self) -> (size: usize)
        ensures
            size == self.ring(),
    {
        self.ring_buffer_size
    }

    pub fn current_frame(&self) -> (frame: u64)
        ensures
            frame == self.frame(),
    {
        self.current_frame
    }

    /// The number of bytes handed out.
    pub fn total_bytes_uploaded(&self) -> (count: u64)
        ensures
            count == self.uploaded(),
    {
        self.total_bytes_uploaded
    }

    /// The number of buffers.
    pub fn buffer_count(&self) -> (count: usize)
        ensures
            count == self.buffers().len(),
    {
        self.buffers.len()
    }

    /// Gives up a buffer.
    pub fn destroy_buffer(&mut self, buffer_id: u64)
        requires
            old(self).valid(),
        ensures
            final(self).valid(),
            final(self).buffers() == old(self).buffers().remove(buffer_id),
            final(self).next_id() == old(self).next_id(),
            final(self).frame() == old(self).frame(),
            final(self).ring() == old(self).ring(),
            final(self).uploaded() == old(self).uploaded(),
    {
        self.buffers.remove(&buffer_id);
        assert forall|other: u64| #[trigger] self.buffers().contains_key(
            other,
        ) implies self.buffers()[other].write_offset <= self.buffers()[other].size by {
            assert(old(self).buffers().contains_key(other));
        }
    }
}

/// Of two allocations from one buffer in one frame, the second starts right
/// behind the first or at the buffer's start.
pub proof fn lemma_allocations_follow(
    buffer: StreamingBuffer,
    frame: u64,
    ring: usize,
    first: usize,
    second: usize,
)
    requires
        buffer.write_offset <= buffer.size,
        first <= buffer.size,
        first <= ring,
        second <= buffer.size,
        second <= ring,
    ensures
        ({
            let ready = prepared(buffer, frame, first, ring);
            let again = prepared(filled(ready, first), frame, second, ring);
            again.write_offset == 0 || again.write_offset == ready.write_offset + first
        }),
{
}

/// The first allocation of a frame starts at the buffer's start.
pub proof fn lemma_new_frame_starts_over(
    buffer: StreamingBuffer,
    frame: u64,
    size: usize,
    ring: usize,
)
    requires
        buffer.frame_used != frame,
    ensures
        prepared(buffer, frame, size, ring).write_offset == 0,
{
}

/// What is prepared leaves the buffer's other fields alone and has room for the
/// size where the buffer and the ring have; within a frame it goes back to the
/// start only where the size does not fit behind what was written.
pub proof fn lemma_prepared_has_room(
    buffer: StreamingBuffer,
    frame: u64,
    size: usize,
    ring: usize,
)
    ensures
        ({
            let ready = prepared(buffer, frame, size, ring);
            &&& ready.id == buffer.id
            &&& ready.size == buffer.size
            &&& ready.total_uploaded == buffer.total_uploaded
            &&& ready.frame_used == frame
            &&& size <= buffer.size && size <= ring ==> ready.write_offset + size <= buffer.size
                && ready.write_offset + size <= ring
            &&& buffer.frame_used == frame && buffer.write_offset + size <= buffer.size
                && buffer.write_offset + size <= ring ==> ready.write_offset
                == buffer.write_offset
            &&& ready.write_offset == buffer.write_offset || ready.write_offset == 0
            &&& buffer.total_uploaded + size <= u64::MAX && ready.write_offset + size <= usize::MAX
                ==> filled(ready, size).write_offset == ready.write_offset + size && filled(
                ready,
                size,
            ).total_uploaded == buffer.total_uploaded + size && filled(ready, size).size
                == buffer.size && filled(ready, size).frame_used == frame
        }),
{
}

} // verus!
