//! What the relocations of an image change as a whole.
use crate::bytes::{
    bytes32, bytes64, in_range, le32, le64, lemma_le32_reads_back, lemma_le64_reads_back,
    overwritten, u32_at, u64_at,
};
use crate::pe::layout::{
    blocks_applied, entries_applied, entry_applied, lemma_there_and_back, relocated,
};
use crate::pe::types::{RelocationBlockModel, RelocationEntry, RelocationType};
use vstd::prelude::*;

verus! {

/// A place of the image that a relocation changes, and how.
pub struct Fixup {
    pub target: int,
    pub kind: RelocationType,
}

/// The place that an entry of a page changes.
pub open spec fn fixup_of(page: u32, entry: RelocationEntry) -> Fixup {
    Fixup { target: page + entry.offset, kind: entry.kind }
}

/// The places that the entries of one page change.
pub open spec fn page_fixups(block: RelocationBlockModel) -> Seq<Fixup> {
    block.entries.map_values(|entry: RelocationEntry| fixup_of(block.page_rva, entry))
}

/// The places that the entries of all pages change, in order.
pub open spec fn fixups(blocks: Seq<RelocationBlockModel>) -> Seq<Fixup>
    decreases blocks.len(),
{
    if blocks.len() == 0 {
        Seq::empty()
    } else {
        fixups(blocks.drop_last()) + page_fixups(blocks.last())
    }
}

/// How many bytes a relocation changes.
pub open spec fn width(kind: RelocationType) -> int {
    match kind {
        RelocationType::HighLow => 4,
        RelocationType::Dir64 => 8,
        _ => 0,
    }
}

/// One more than the largest word of a relocation.
pub open spec fn modulus(kind: RelocationType) -> int {
    match kind {
        RelocationType::HighLow => 0x1_0000_0000,
        RelocationType::Dir64 => 0x1_0000_0000_0000_0000,
        _ => 1,
    }
}

/// The word at the place of a relocation.
pub open spec fn word_of(memory: Seq<u8>, fixup: Fixup) -> int {
    match fixup.kind {
        RelocationType::HighLow => le32(memory, fixup.target) as int,
        RelocationType::Dir64 => le64(memory, fixup.target) as int,
        _ => 0,
    }
}

/// The byte at `at` belongs to the place of a relocation.
pub open spec fn covers(fixup: Fixup, at: int) -> bool {
    fixup.target <= at < fixup.target + width(fixup.kind)
}

/// A relocation of a known kind at a place inside a memory of the given size.
pub open spec fn fits(fixup: Fixup, size: nat) -> bool {
    &&& 0 <= fixup.target <= u32::MAX
    &&& !(fixup.kind is Unsupported)
    &&& width(fixup.kind) > 0 ==> fixup.target + width(fixup.kind) <= size
}

/// The places of two relocations have no byte in common.
pub open spec fn apart(a: Fixup, b: Fixup) -> bool {
    ||| width(a.kind) == 0
    ||| width(b.kind) == 0
    ||| a.target + width(a.kind) <= b.target
    ||| b.target + width(b.kind) <= a.target
}

/// All relocations are of a known kind, inside the memory and apart from each
/// other.
pub open spec fn separable(list: Seq<Fixup>, size: nat) -> bool {
    &&& forall|i: int| 0 <= i < list.len() ==> fits(#[trigger] list[i], size)
    &&& forall|i: int, j: int|
        0 <= i < j < list.len() ==> apart(#[trigger] list[i], #[trigger] list[j])
}

/// Every word of the first `count` relocations has grown by `delta`, what does
/// not fit into it being dropped, and every other byte is as it was.
pub open spec fn moved_by(
    before: Seq<u8>,
    after: Seq<u8>,
    list: Seq<Fixup>,
    count: int,
    delta: int,
) -> bool {
    &&& after.len() == before.len()
    &&& forall|i: int|
        0 <= i < count ==> word_of(after, #[trigger] list[i]) == (word_of(before, list[i]) + delta)
            % modulus(list[i].kind)
    &&& forall|at: int|
        0 <= at < before.len() && (forall|i: int|
            0 <= i < count ==> !covers(#[trigger] list[i], at)) ==> #[trigger] after[at]
            == before[at]
}

/// The memory after one relocation, and whether it could be made.
spec fn fixup_applied(memory: Seq<u8>, fixup: Fixup, delta: int) -> (Seq<u8>, bool) {
    if fixup.target > u32::MAX {
        (memory, false)
    } else {
        match fixup.kind {
            RelocationType::Absolute => (memory, true),
            RelocationType::Dir64 => match u64_at(memory, fixup.target) {
                None => (memory, false),
                Some(word) => (
                    overwritten(
                        memory,
                        fixup.target,
                        bytes64(((word + delta) % 0x1_0000_0000_0000_0000) as u64),
                    ),
                    true,
                ),
            },
            RelocationType::HighLow => match u32_at(memory, fixup.target) {
                None => (memory, false),
                Some(word) => (
                    overwritten(
                        memory,
                        fixup.target,
                        bytes32(((word + delta) % 0x1_0000_0000) as u32),
                    ),
                    true,
                ),
            },
            RelocationType::Unsupported(_) => (memory, false),
        }
    }
}

/// The memory after the first `count` relocations.
spec fn fixups_applied(memory: Seq<u8>, list: Seq<Fixup>, count: int, delta: int) -> (Seq<u8>, bool)
    decreases count,
{
    if count <= 0 {
        (memory, true)
    } else {
        let before = fixups_applied(memory, list, count - 1, delta);
        if before.1 {
            fixup_applied(before.0, list[count - 1], delta)
        } else {
            before
        }
    }
}

proof fn lemma_same_words(a: Seq<u8>, b: Seq<u8>, fixup: Fixup)
    requires
        forall|at: int| covers(fixup, at) ==> a[at] == b[at],
    ensures
        word_of(a, fixup) == word_of(b, fixup),
{
    let t = fixup.target;
    match fixup.kind {
        RelocationType::HighLow => {
            assert(covers(fixup, t) && covers(fixup, t + 1) && covers(fixup, t + 2) && covers(
                fixup,
                t + 3,
            ));
        },
        RelocationType::Dir64 => {
            assert(covers(fixup, t) && covers(fixup, t + 1) && covers(fixup, t + 2) && covers(
                fixup,
                t + 3,
            ));
            assert(covers(fixup, t + 4) && covers(fixup, t + 5) && covers(fixup, t + 6) && covers(
                fixup,
                t + 7,
            ));
        },
        _ => {},
    }
}

proof fn lemma_same_bytes32(a: Seq<u8>, b: Seq<u8>, at: int)
    requires
        le32(a, at) == le32(b, at),
    ensures
        a[at] == b[at],
        a[at + 1] == b[at + 1],
        a[at + 2] == b[at + 2],
        a[at + 3] == b[at + 3],
{
}

proof fn lemma_same_bytes(a: Seq<u8>, b: Seq<u8>, fixup: Fixup)
    requires
        word_of(a, fixup) == word_of(b, fixup),
    ensures
        forall|at: int| covers(fixup, at) ==> #[trigger] a[at] == b[at],
{
    let t = fixup.target;
    match fixup.kind {
        RelocationType::HighLow => {
            lemma_same_bytes32(a, b, t);
        },
        RelocationType::Dir64 => {
            assert(le32(a, t) == le32(b, t) && le32(a, t + 4) == le32(b, t + 4));
            lemma_same_bytes32(a, b, t);
            lemma_same_bytes32(a, b, t + 4);
        },
        _ => {},
    }
}

proof fn lemma_fixup_applied(memory: Seq<u8>, fixup: Fixup, delta: int)
    requires
        fits(fixup, memory.len()),
    ensures
        ({
            let after = fixup_applied(memory, fixup, delta);
            &&& after.1
            &&& after.0.len() == memory.len()
            &&& word_of(after.0, fixup) == (word_of(memory, fixup) + delta) % modulus(fixup.kind)
            &&& forall|at: int|
                0 <= at < memory.len() && !covers(fixup, at) ==> #[trigger] after.0[at]
                    == memory[at]
        }),
{
    match fixup.kind {
        RelocationType::HighLow => {
            assert(in_range(memory, fixup.target, 4));
            let word = u32_at(memory, fixup.target)->0;
            lemma_le32_reads_back(
                memory,
                fixup.target,
                ((word + delta) % 0x1_0000_0000) as u32,
            );
        },
        RelocationType::Dir64 => {
            assert(in_range(memory, fixup.target, 8));
            let word = u64_at(memory, fixup.target)->0;
            lemma_le64_reads_back(
                memory,
                fixup.target,
                ((word + delta) % 0x1_0000_0000_0000_0000) as u64,
            );
        },
        _ => {},
    }
}

proof fn lemma_fixups_applied(memory: Seq<u8>, list: Seq<Fixup>, count: int, delta: int)
    requires
        separable(list, memory.len()),
        0 <= count <= list.len(),
    ensures
        fixups_applied(memory, list, count, delta).1,
        moved_by(memory, fixups_applied(memory, list, count, delta).0, list, count, delta),
        forall|i: int|
            count <= i < list.len() ==> word_of(
                fixups_applied(memory, list, count, delta).0,
                #[trigger] list[i],
            ) == word_of(memory, list[i]),
    decreases count,
{
    if count > 0 {
        let last = list[count - 1];
        lemma_fixups_applied(memory, list, count - 1, delta);
        let before = fixups_applied(memory, list, count - 1, delta).0;
        let after = fixups_applied(memory, list, count, delta).0;
        assert(fits(last, before.len()));
        lemma_fixup_applied(before, last, delta);
        assert forall|i: int| 0 <= i < list.len() && i != count - 1 implies word_of(
            after,
            #[trigger] list[i],
        ) == word_of(before, list[i]) by {
            let other = list[i];
            assert(fits(other, before.len()));
            if i < count - 1 {
                assert(apart(list[i], list[count - 1]));
            } else {
                assert(apart(list[count - 1], list[i]));
            }
            assert forall|at: int| covers(other, at) implies after[at] == before[at] by {
                assert(!covers(last, at));
            }
            lemma_same_words(after, before, other);
        }
        assert forall|at: int|
            0 <= at < memory.len() && (forall|i: int|
                0 <= i < count ==> !covers(
                    #[trigger] list[i],
                    at,
                )) implies #[trigger] after[at] == memory[at] by {
            assert(!covers(list[count - 1], at));
            assert(after[at] == before[at]);
        }
    }
}

proof fn lemma_fixups_joined(memory: Seq<u8>, a: Seq<Fixup>, b: Seq<Fixup>, count: int, delta: int)
    requires
        0 <= count <= b.len(),
    ensures
        fixups_applied(memory, a + b, a.len() + count, delta) == ({
            let before = fixups_applied(memory, a, a.len() as int, delta);
            if before.1 {
                fixups_applied(before.0, b, count, delta)
            } else {
                before
            }
        }),
    decreases count,
{
    if count == 0 {
        lemma_fixups_prefix(memory, a + b, a, a.len() as int, delta);
    } else {
        lemma_fixups_joined(memory, a, b, count - 1, delta);
        assert((a + b)[a.len() + count - 1] == b[count - 1]);
    }
}

proof fn lemma_fixups_prefix(
    memory: Seq<u8>,
    longer: Seq<Fixup>,
    shorter: Seq<Fixup>,
    count: int,
    delta: int,
)
    requires
        0 <= count <= shorter.len() <= longer.len(),
        forall|i: int| 0 <= i < shorter.len() ==> longer[i] == #[trigger] shorter[i],
    ensures
        fixups_applied(memory, longer, count, delta) == fixups_applied(
            memory,
            shorter,
            count,
            delta,
        ),
    decreases count,
{
    if count > 0 {
        lemma_fixups_prefix(memory, longer, shorter, count - 1, delta);
        assert(longer[count - 1] == shorter[count - 1]);
    }
}

proof fn lemma_page_as_fixups(
    memory: Seq<u8>,
    block: RelocationBlockModel,
    count: int,
    delta: int,
)
    requires
        0 <= count <= block.entries.len(),
    ensures
        entries_applied(memory, block.page_rva, block.entries, count, delta) == fixups_applied(
            memory,
            page_fixups(block),
            count,
            delta,
        ),
    decreases count,
{
    if count > 0 {
        lemma_page_as_fixups(memory, block, count - 1, delta);
        let before = fixups_applied(memory, page_fixups(block), count - 1, delta).0;
        let entry = block.entries[count - 1];
        assert(page_fixups(block)[count - 1] == fixup_of(block.page_rva, entry));
        assert(entry_applied(before, block.page_rva, entry, delta) == fixup_applied(
            before,
            fixup_of(block.page_rva, entry),
            delta,
        ));
    }
}

proof fn lemma_blocks_as_fixups(
    memory: Seq<u8>,
    blocks: Seq<RelocationBlockModel>,
    count: int,
    delta: int,
)
    requires
        0 <= count <= blocks.len(),
    ensures
        blocks_applied(memory, blocks, count, delta) == fixups_applied(
            memory,
            fixups(blocks.take(count)),
            fixups(blocks.take(count)).len() as int,
            delta,
        ),
    decreases count,
{
    if count > 0 {
        lemma_blocks_as_fixups(memory, blocks, count - 1, delta);
        let front = blocks.take(count - 1);
        let block = blocks[count - 1];
        assert(blocks.take(count).drop_last() =~= front);
        let a = fixups(front);
        let b = page_fixups(block);
        assert(fixups(blocks.take(count)) == a + b);
        lemma_fixups_joined(memory, a, b, b.len() as int, delta);
        let before = fixups_applied(memory, a, a.len() as int, delta);
        if before.1 {
            lemma_page_as_fixups(before.0, block, block.entries.len() as int, delta);
        }
    }
}

proof fn lemma_moved_back(
    memory: Seq<u8>,
    after: Seq<u8>,
    again: Seq<u8>,
    list: Seq<Fixup>,
    delta: int,
)
    requires
        moved_by(memory, after, list, list.len() as int, delta),
        moved_by(after, again, list, list.len() as int, -delta),
    ensures
        again == memory,
{
    let count = list.len() as int;
    assert forall|at: int| 0 <= at < memory.len() implies #[trigger] again[at] == memory[at] by {
        if exists|i: int| 0 <= i < count && covers(#[trigger] list[i], at) {
            let i = choose|i: int| 0 <= i < count && covers(#[trigger] list[i], at);
            let fixup = list[i];
            lemma_word_bound(memory, fixup);
            lemma_there_and_back(word_of(memory, fixup), delta, modulus(fixup.kind));
            assert(word_of(again, fixup) == word_of(memory, fixup));
            lemma_same_bytes(again, memory, fixup);
        } else {
            assert(after[at] == memory[at]);
            assert(again[at] == after[at]);
        }
    }
    assert(again =~= memory);
}

/// Relocations that lie inside the memory and apart from each other are all
/// made: each word grows by as much as the image moves, what does not fit into
/// it being dropped, and every other byte stays. An image that does not move
/// is not changed, and moving back restores the memory.
pub proof fn lemma_image_moved(
    memory: Seq<u8>,
    blocks: Seq<RelocationBlockModel>,
    preferred: u64,
    base: u64,
)
    requires
        separable(fixups(blocks), memory.len()),
    ensures
        relocated(memory, blocks, preferred, base).1,
        moved_by(
            memory,
            relocated(memory, blocks, preferred, base).0,
            fixups(blocks),
            fixups(blocks).len() as int,
            base - preferred,
        ),
        preferred == base ==> relocated(memory, blocks, preferred, base).0 == memory,
        relocated(relocated(memory, blocks, preferred, base).0, blocks, base, preferred) == (
            memory,
            true,
        ),
{
    let list = fixups(blocks);
    let count = list.len() as int;
    let delta = base - preferred;
    assert(blocks.take(blocks.len() as int) =~= blocks);
    if preferred == base {
        assert forall|i: int| 0 <= i < count implies word_of(memory, #[trigger] list[i]) == (
        word_of(memory, list[i]) + delta) % modulus(list[i].kind) by {
            lemma_word_bound(memory, list[i]);
        }
    } else {
        lemma_blocks_as_fixups(memory, blocks, blocks.len() as int, delta);
        lemma_fixups_applied(memory, list, count, delta);
        let after = relocated(memory, blocks, preferred, base).0;
        lemma_blocks_as_fixups(after, blocks, blocks.len() as int, -delta);
        lemma_fixups_applied(after, list, count, -delta);
        lemma_moved_back(memory, after, relocated(after, blocks, base, preferred).0, list, delta);
    }
}

proof fn lemma_word_bound(memory: Seq<u8>, fixup: Fixup)
    ensures
        0 <= word_of(memory, fixup) < modulus(fixup.kind),
{
}

} // verus!
