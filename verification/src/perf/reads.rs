//! File reads that run beside the guest, and what became of them.
use crate::error::{AppError, AppResult, ReasonCode};
use crate::ids::{keys_of, lists_keys, sorted_keys};
use crate::text::noted;
use std::collections::BTreeMap;
use vstd::prelude::*;

verus! {

broadcast use vstd::std_specs::btree::group_btree_axioms;

/// A read that was asked for.
#[derive(Debug, Clone)]
pub struct PendingRead {
    pub path: String,
    /// Where in the file the read starts.
    pub offset: u64,
    /// How many bytes are wanted.
    pub size: usize,
}

/// What a read gave.
#[derive(Debug, Clone)]
pub struct CompletedRead {
    pub data: Vec<u8>,
    /// How long the read took, in microseconds.
    pub elapsed_us: u64,
}

/// The bytes from `offset` on, at most `size` of them.
pub open spec fn bytes_read(contents: Seq<u8>, offset: u64, size: usize) -> Seq<u8> {
    if offset >= contents.len() {
        Seq::empty()
    } else if offset + size > contents.len() {
        contents.skip(offset as int)
    } else {
        contents.subrange(offset as int, offset + size)
    }
}

/// The part of a file that a read asked for; what lies past the end is left
/// out.
pub fn read_part(contents: &[u8], offset: u64, size: usize) -> (data: Vec<u8>)
    ensures
        data@ == bytes_read(contents@, offset, size),
{
    let total: usize = contents.len();
    let mut data: Vec<u8> = Vec::new();
    if offset >= total as u64 {
        assert(data@ =~= bytes_read(contents@, offset, size));
        return data;
    }
    let start: usize = offset as usize;
    let end: usize = if size > total - start {
        total
    } else {
        start + size
    };
    let mut i: usize = start;
    while i < end
        invariant
            start <= i <= end,
            end <= contents@.len(),
            data@ == contents@.subrange(start as int, i as int),
        decreases end - i,
    {
        data.push(contents[i]);
        i += 1;
        assert(data@ =~= contents@.subrange(start as int, i as int));
    }
    assert(data@ =~= bytes_read(contents@, offset, size));
    data
}

/// What a wait for a read finds.
#[derive(Debug)]
pub enum ReadProgress {
    /// The read is done and gave these bytes.
    Ready(Vec<u8>),
    /// The read still runs: wait for it and report how it ended.
    Running,
}

/// Keeps account of reads: which were asked for, which still run, and what the
/// others gave.
pub struct AsyncFileReader {
    /// Reads that were asked for, by request number.
    pub pending_reads: BTreeMap<u64, PendingRead>,
    /// Reads that are done and were not fetched yet.
    pub completed_reads: BTreeMap<u64, CompletedRead>,
    /// The number of the next request.
    pub next_request_id: u64,
    /// Reads that nobody has waited for yet.
    pub running_reads: BTreeMap<u64, ()>,
}

impl AsyncFileReader {
    pub fn new() -> (reader: Self)
        ensures
            reader.pending_reads@ == Map::<u64, PendingRead>::empty(),
            reader.completed_reads@ == Map::<u64, CompletedRead>::empty(),
            reader.running_reads@ == Map::<u64, ()>::empty(),
            reader.next_request_id == 1,
    {
        AsyncFileReader {
            pending_reads: BTreeMap::new(),
            completed_reads: BTreeMap::new(),
            next_request_id: 1,
            running_reads: BTreeMap::new(),
        }
    }

    /// Numbers a read that starts now.
    pub fn submit_read(&mut self, path: String, offset: u64, size: usize) -> (id: u64)
        requires
            old(self).next_request_id < u64::MAX,
        ensures
            id == old(self).next_request_id,
            final(self).next_request_id == id + 1,
            final(self).pending_reads@ == old(self).pending_reads@.insert(
                id,
                (PendingRead { path, offset, size }),
            ),
            final(self).running_reads@ == old(self).running_reads@.insert(id, ()),
            final(self).completed_reads@ == old(self).completed_reads@,
    {
        let id: u64 = self.next_request_id;
        self.next_request_id = id + 1;
        self.pending_reads.insert(id, PendingRead { path, offset, size });
        self.running_reads.insert(id, ());
        id
    }

    /// Fetches all reads that are done, by ascending number.
    pub fn poll_completed(&mut self) -> (reads: Vec<(u64, Vec<u8>)>)
        ensures
            lists_keys(keys_of(old(self).completed_reads@), old(self).completed_reads@),
            reads@.len() == keys_of(old(self).completed_reads@).len(),
            forall|i: int|
                0 <= i < reads@.len() ==> (#[trigger] reads@[i]).0 == keys_of(
                    old(self).completed_reads@,
                )[i] && reads@[i].1 == old(self).completed_reads@[reads@[i].0].data,
            final(self).completed_reads@ == Map::<u64, CompletedRead>::empty(),
            final(self).pending_reads@ == old(self).pending_reads@,
            final(self).running_reads@ == old(self).running_reads@,
            final(self).next_request_id == old(self).next_request_id,
    {
        let keys: Vec<u64> = sorted_keys(&self.completed_reads);
        let ghost before = self.completed_reads@;
        let mut reads: Vec<(u64, Vec<u8>)> = Vec::new();
        let mut i: usize = 0;
        while i < keys.len()
            invariant
                i <= keys@.len(),
                before == old(self).completed_reads@,
                lists_keys(keys@, before),
                reads@.len() == i,
                forall|j: int|
                    0 <= j < i ==> (#[trigger] reads@[j]).0 == keys@[j] && reads@[j].1
                        == before[keys@[j]].data,
                forall|id: u64| #[trigger]
                    self.completed_reads@.contains_key(id) <==> before.contains_key(id) && !exists|
                        j: int,
                    |
                        0 <= j < i && keys@[j] == id,
                forall|id: u64| #[trigger]
                    self.completed_reads@.contains_key(id) ==> self.completed_reads@[id]
                        == before[id],
                self.pending_reads@ == old(self).pending_reads@,
                self.running_reads@ == old(self).running_reads@,
                self.next_request_id == old(self).next_request_id,
            decreases keys@.len() - i,
        {
            let id: u64 = keys[i];
            proof {
                assert(keys@.contains(id));
                assert(before.contains_key(id));
                assert(self.completed_reads@.contains_key(id));
            }
            let ghost sooner = self.completed_reads@;
            match self.completed_reads.remove(&id) {
                Some(read) => {
                    reads.push((id, read.data));
                },
                None => {},
            }
            assert(self.completed_reads@ == sooner.remove(id));
            i += 1;
        }
        assert(self.completed_reads@ =~= Map::<u64, CompletedRead>::empty()) by {
            assert forall|id: u64| !self.completed_reads@.dom().contains(id) by {
                if self.completed_reads@.contains_key(id) {
                    assert(keys@.contains(id));
                }
            }
        }
        reads
    }

    /// Looks whether a read is done. A read that is done is fetched. One that
    /// still runs is to be waited for, and [`AsyncFileReader::finish_read`]
    /// takes what it gave. An unknown read is an error.
    pub fn wait_for(&mut self, request_id: u64, _timeout_ms: u64) -> (outcome: AppResult<
        ReadProgress,
    >)
        ensures
            match outcome {
                Ok(ReadProgress::Ready(data)) => old(self).completed_reads@.contains_key(
                    request_id,
                ) && data == old(self).completed_reads@[request_id].data,
                Ok(ReadProgress::Running) => !old(self).completed_reads@.contains_key(request_id)
                    && old(self).running_reads@.contains_key(request_id),
                Err(error) => !old(self).completed_reads@.contains_key(request_id) && !old(
                    self,
                ).running_reads@.contains_key(request_id) && error.code
                    == ReasonCode::RcWin32Timeout,
            },
            final(self).completed_reads@ == old(self).completed_reads@.remove(request_id),
            final(self).running_reads@ == (if outcome matches Ok(ReadProgress::Running) {
                old(self).running_reads@.remove(request_id)
            } else {
                old(self).running_reads@
            }),
            final(self).pending_reads@ == old(self).pending_reads@,
            final(self).next_request_id == old(self).next_request_id,
    {
        match self.completed_reads.remove(&request_id) {
            Some(read) => {
                return Ok(ReadProgress::Ready(read.data));
            },
            None => {},
        }
        match self.running_reads.remove(&request_id) {
            Some(_) => Ok(ReadProgress::Running),
            None => {
                assert(self.running_reads@ =~= old(self).running_reads@);
                Err(
                    AppError::new(
                        ReasonCode::RcWin32Timeout,
                        &noted("async read ", request_id, " not found"),
                    ),
                )
            },
        }
    }

    /// Takes what a read gave that was waited for. It can be fetched once more
    /// afterwards. A read that broke down is an error.
    pub fn finish_read(&mut self, request_id: u64, finished: Option<CompletedRead>) -> (outcome:
        AppResult<Vec<u8>>)
        ensures
            match (finished, outcome) {
                (Some(read), Ok(data)) => data@ == read.data@ && final(self).completed_reads@
                    == old(self).completed_reads@.insert(request_id, read),
                (None, Err(error)) => error.code == ReasonCode::RcIo && final(self).completed_reads@
                    == old(self).completed_reads@,
                _ => false,
            },
            final(self).pending_reads@ == old(self).pending_reads@,
            final(self).running_reads@ == old(self).running_reads@,
            final(self).next_request_id == old(self).next_request_id,
    {
        match finished {
            Some(read) => {
                let data = read.data.clone();
                assert(data@ =~= read.data@);
                self.completed_reads.insert(request_id, read);
                Ok(data)
            },
            None => Err(
                AppError::new(
                    ReasonCode::RcIo,
                    &noted("async read ", request_id, ": thread panicked"),
                ),
            ),
        }
    }
}

/// A read gives the bytes from its offset on, as many as it wants and the file
/// has; two reads one behind the other give what one long read gives.
pub proof fn lemma_bytes_read(contents: Seq<u8>, offset: u64, first: usize, second: usize)
    requires
        first + second <= usize::MAX,
        offset + first <= u64::MAX,
    ensures
        bytes_read(contents, offset, first).len() <= first,
        offset + first <= contents.len() ==> bytes_read(contents, offset, first).len() == first,
        offset <= contents.len() < offset + first ==> bytes_read(contents, offset, first).len()
            == contents.len() - offset,
        offset >= contents.len() ==> bytes_read(contents, offset, first).len() == 0,
        forall|i: int|
            0 <= i < bytes_read(contents, offset, first).len() ==> #[trigger] bytes_read(
                contents,
                offset,
                first,
            )[i] == contents[offset + i],
        bytes_read(contents, offset, (first + second) as usize) == bytes_read(
            contents,
            offset,
            first,
        ) + bytes_read(contents, (offset + first) as u64, second),
{
    assert(bytes_read(contents, offset, (first + second) as usize) =~= bytes_read(
        contents,
        offset,
        first,
    ) + bytes_read(contents, (offset + first) as u64, second));
}

} // verus!
