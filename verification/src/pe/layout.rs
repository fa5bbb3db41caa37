//! Where an image is mapped, and what its memory then holds.
use crate::bytes::{
    bytes32, bytes64, checked_range, in_range, invalid, lemma_le32_reads_back,
    lemma_le64_reads_back, overwrite, overwritten, read_u32, read_u64, slice, u32_at, u64_at,
    write_u32, write_u64,
};
use crate::error::{agrees, AppResult, ReasonCode};
use crate::pe::headers::{align_up, aligned_up, IMAGE_NT_OPTIONAL_HDR64_MAGIC};
use crate::pe::types::{
    DataDirectory, MappedImage, MappedImageModel, MemoryProtection, ParsedPe, ParsedPeModel,
    PeSection, PeSectionModel, RelocationBlock, RelocationBlockModel, RelocationEntry,
    RelocationType, SectionMapping, SectionMappingModel,
};
use crate::text::noted;
use vstd::prelude::*;
use vstd::utf8::encode_utf8;

verus! {

pub const IMAGE_DLLCHARACTERISTICS_DYNAMIC_BASE: u16 = 0x0040;

pub const IMAGE_DLLCHARACTERISTICS_HOT_PATCH: u16 = 0x0020;

pub const IMAGE_SCN_MEM_EXECUTE: u32 = 0x2000_0000;

pub const IMAGE_SCN_MEM_READ: u32 = 0x4000_0000;

pub const IMAGE_SCN_MEM_WRITE: u32 = 0x8000_0000;

pub const COMIMAGE_FLAGS_ILONLY: u32 = 0x0000_0001;

pub const COMIMAGE_FLAGS_32BITREQUIRED: u32 = 0x0000_0002;

pub const COMIMAGE_FLAGS_IL_LIBRARY: u32 = 0x0000_0004;

pub const COMIMAGE_FLAGS_STRONGNAMESIGNED: u32 = 0x0000_0008;

pub const COMIMAGE_FLAGS_NATIVE_ENTRYPOINT: u32 = 0x0000_0010;

pub const COMIMAGE_FLAGS_TRACKDEBUGDATA: u32 = 0x0001_0000;

pub const COMIMAGE_FLAGS_32BITPREFERRED: u32 = 0x0002_0000;

// ---------------------------------------------------------------------------
// What an image says of itself
// ---------------------------------------------------------------------------

impl ParsedPe {
    /// The directory at `index`; an empty one where there is none.
    pub fn directory(&self, index: usize) -> (directory: DataDirectory)
        ensures
            directory == (if index < self.data_directories@.len() {
                self.data_directories@[index as int]
            } else {
                DataDirectory { virtual_address: 0, size: 0 }
            }),
    {
        if index < self.data_directories.len() {
            self.data_directories[index]
        } else {
            DataDirectory { virtual_address: 0, size: 0 }
        }
    }

    /// The size of an address in the image.
    pub fn pointer_bytes(&self) -> (size: usize)
        ensures
            size == (if self.optional_header_magic == IMAGE_NT_OPTIONAL_HDR64_MAGIC {
                8int
            } else {
                4
            }),
    {
        if self.optional_header_magic == IMAGE_NT_OPTIONAL_HDR64_MAGIC {
            8
        } else {
            4
        }
    }

    /// Whether the image may be mapped at another address.
    pub fn dynamic_base(&self) -> (dynamic: bool)
        ensures
            dynamic == (self.dll_characteristics & IMAGE_DLLCHARACTERISTICS_DYNAMIC_BASE != 0),
    {
        self.dll_characteristics & IMAGE_DLLCHARACTERISTICS_DYNAMIC_BASE != 0
    }

    /// Whether the image can be patched while it runs.
    pub fn hot_patch(&self) -> (patchable: bool)
        ensures
            patchable == (self.dll_characteristics & IMAGE_DLLCHARACTERISTICS_HOT_PATCH != 0),
    {
        self.dll_characteristics & IMAGE_DLLCHARACTERISTICS_HOT_PATCH != 0
    }

    /// Whether the image is a mixed assembly: managed, with a native entry
    /// point.
    pub fn is_ijw(&self) -> (mixed: bool)
        ensures
            mixed == (self.clr_header matches Some(header) && header.flags
                & COMIMAGE_FLAGS_NATIVE_ENTRYPOINT != 0),
    {
        match &self.clr_header {
            Some(header) => header.flags & COMIMAGE_FLAGS_NATIVE_ENTRYPOINT != 0,
            None => false,
        }
    }

    /// Whether the image is an assembly without native code.
    pub fn is_il_only(&self) -> (managed: bool)
        ensures
            managed == (self.clr_header matches Some(header) && header.flags
                & COMIMAGE_FLAGS_ILONLY != 0),
    {
        match &self.clr_header {
            Some(header) => header.flags & COMIMAGE_FLAGS_ILONLY != 0,
            None => false,
        }
    }
}

// ---------------------------------------------------------------------------
// The base address
// ---------------------------------------------------------------------------

/// The value of a hexadecimal digit.
pub open spec fn hex_digit(byte: u8) -> Option<int> {
    if 48 <= byte <= 57 {
        Some(byte - 48)
    } else if 65 <= byte <= 70 {
        Some(byte - 55)
    } else if 97 <= byte <= 102 {
        Some(byte - 87)
    } else {
        None
    }
}

/// The value of one or two characters that write a byte in hexadecimal; the
/// first of two may be a plus sign.
pub open spec fn hex_byte(pair: Seq<u8>) -> Option<int> {
    if pair.len() == 1 {
        hex_digit(pair[0])
    } else if pair.len() != 2 {
        None
    } else if pair[0] == 43 {
        hex_digit(pair[1])
    } else {
        match (hex_digit(pair[0]), hex_digit(pair[1])) {
            (Some(high), Some(low)) => Some(16 * high + low),
            _ => None,
        }
    }
}

/// Byte `index` of a hash: what its two characters write, or else its place.
pub open spec fn hash_byte(hash: Seq<u8>, index: int) -> int {
    let end = if 2 * index + 2 <= hash.len() {
        2 * index + 2
    } else {
        hash.len() as int
    };
    match hex_byte(hash.subrange(2 * index, end)) {
        Some(value) => value,
        None => index,
    }
}

/// The number that the first `count` bytes of a hash make, the first highest.
pub open spec fn hash_number(hash: Seq<u8>, count: int) -> int
    decreases count,
{
    if count <= 0 {
        0
    } else {
        256 * hash_number(hash, count - 1) + hash_byte(hash, count - 1)
    }
}

/// How many bytes of a hash make its number: those that it has, at most eight.
pub open spec fn hash_bytes(hash: Seq<u8>) -> int {
    if (hash.len() + 1) as int / 2 < 8 {
        (hash.len() + 1) as int / 2
    } else {
        8
    }
}

/// The number that a hash, written in hexadecimal, begins with.
pub open spec fn seed_of(hash: Seq<u8>) -> int {
    hash_number(hash, hash_bytes(hash))
}

fn digit_value(byte: u8) -> (value: Option<u8>)
    ensures
        match value {
            Some(digit) => hex_digit(byte) == Some(digit as int) && digit < 16,
            None => hex_digit(byte) is None,
        },
{
    if 48 <= byte && byte <= 57 {
        Some(byte - 48)
    } else if 65 <= byte && byte <= 70 {
        Some(byte - 55)
    } else if 97 <= byte && byte <= 102 {
        Some(byte - 87)
    } else {
        None
    }
}

fn byte_value(hash: &[u8], index: usize) -> (value: u8)
    requires
        index < 8,
        2 * index < hash.len(),
    ensures
        value == hash_byte(hash@, index as int),
{
    let start: usize = 2 * index;
    if hash.len() - start < 2 {
        assert(hash@.subrange(start as int, hash@.len() as int) =~= seq![hash@[start as int]]);
        return match digit_value(hash[start]) {
            Some(value) => value,
            None => index as u8,
        };
    }
    assert(hash@.subrange(start as int, start + 2) =~= seq![
        hash@[start as int],
        hash@[start + 1],
    ]);
    match digit_value(hash[start + 1]) {
        None => index as u8,
        Some(low) => if hash[start] == 43 {
            low
        } else {
            match digit_value(hash[start]) {
                Some(high) => 16 * high + low,
                None => index as u8,
            }
        },
    }
}

/// The number that a hash, written in hexadecimal, begins with.
pub fn hash_seed(image_hash: &str) -> (seed: u64)
    ensures
        seed == seed_of(encode_utf8(image_hash@)),
{
    let hash: &[u8] = image_hash.as_bytes();
    let length: usize = hash.len();
    let count: usize = if length / 2 + length % 2 < 8 {
        length / 2 + length % 2
    } else {
        8
    };
    let mut seed: u64 = 0;
    let ghost mut limit: int = 1;
    let mut index: usize = 0;
    while index < count
        invariant
            index <= count <= 8,
            count == hash_bytes(hash@),
            seed == hash_number(hash@, index as int),
            seed < limit,
            index == 0 ==> limit == 0x1,
            index == 1 ==> limit == 0x100,
            index == 2 ==> limit == 0x1_0000,
            index == 3 ==> limit == 0x100_0000,
            index == 4 ==> limit == 0x1_0000_0000,
            index == 5 ==> limit == 0x100_0000_0000,
            index == 6 ==> limit == 0x1_0000_0000_0000,
            index == 7 ==> limit == 0x100_0000_0000_0000,
            index == 8 ==> limit == 0x1_0000_0000_0000_0000,
        decreases count - index,
    {
        let byte: u8 = byte_value(hash, index);
        proof {
            limit = limit * 256;
            assert(256 * seed + byte < limit);
        }
        seed = 256 * seed + byte as u64;
        index += 1;
    }
    seed
}

/// The base address at which an image is mapped: its own where it cannot be
/// moved; else a multiple of 64 KiB that the hash of the image picks, mixed
/// with a number of the running process unless the choice is to be the same in
/// every run.
pub open spec fn base_of(image: ParsedPeModel, hash: Seq<u8>, dtm: bool, runtime_seed: u64) -> u64 {
    let hashed = seed_of(hash) as u64;
    let seed = if dtm {
        hashed
    } else {
        hashed ^ runtime_seed
    };
    if image.dll_characteristics & IMAGE_DLLCHARACTERISTICS_DYNAMIC_BASE == 0
        || image.relocations.len() == 0 {
        image.image_base
    } else if image.optional_header_magic == IMAGE_NT_OPTIONAL_HDR64_MAGIC {
        (0x1800_0000_0000 + (seed / 0x1_0000 % 0x1000_0000) * 0x1_0000) as u64
    } else {
        (0x1000_0000 + (seed / 0x1_0000 % 0x1000) * 0x1_0000) as u64
    }
}

/// Picks the base address of an image.
pub fn select_image_base(image: &ParsedPe, image_hash: &str, dtm: bool, runtime_seed: u64) -> (base:
    u64)
    ensures
        base == base_of(image.deep_view(), encode_utf8(image_hash@), dtm, runtime_seed),
{
    if !image.dynamic_base() || image.relocations.len() == 0 {
        return image.image_base;
    }
    let hashed: u64 = hash_seed(image_hash);
    let seed: u64 = if dtm {
        hashed
    } else {
        hashed ^ runtime_seed
    };
    if image.pointer_bytes() == 4 {
        return 0x1000_0000 + (seed / 0x1_0000 % 0x1000) * 0x1_0000;
    }
    0x1800_0000_0000 + (seed / 0x1_0000 % 0x1000_0000) * 0x1_0000
}

/// A base address that was picked is a multiple of 64 KiB and lies in the
/// region for images of its kind.
pub proof fn lemma_base_region(image: ParsedPeModel, hash: Seq<u8>, dtm: bool, runtime_seed: u64)
    requires
        image.dll_characteristics & IMAGE_DLLCHARACTERISTICS_DYNAMIC_BASE != 0,
        image.relocations.len() > 0,
    ensures
        ({
            let base = base_of(image, hash, dtm, runtime_seed);
            &&& base % 0x1_0000 == 0
            &&& image.optional_header_magic == IMAGE_NT_OPTIONAL_HDR64_MAGIC ==> 0x1800_0000_0000
                <= base < 0x2800_0000_0000
            &&& image.optional_header_magic != IMAGE_NT_OPTIONAL_HDR64_MAGIC ==> 0x1000_0000 <= base
                < 0x2000_0000
        }),
{
}

// ---------------------------------------------------------------------------
// Relocation
// ---------------------------------------------------------------------------

/// The memory after one relocation, and whether it could be made: a word at
/// the target grows by `delta`, what does not fit into it being dropped.
pub open spec fn entry_applied(
    memory: Seq<u8>,
    page: u32,
    entry: RelocationEntry,
    delta: int,
) -> (Seq<u8>, bool) {
    let target = page + entry.offset;
    if target > u32::MAX {
        (memory, false)
    } else {
        match entry.kind {
            RelocationType::Absolute => (memory, true),
            RelocationType::Dir64 => match u64_at(memory, target) {
                None => (memory, false),
                Some(word) => (
                    overwritten(
                        memory,
                        target,
                        bytes64(((word + delta) % 0x1_0000_0000_0000_0000) as u64),
                    ),
                    true,
                ),
            },
            RelocationType::HighLow => match u32_at(memory, target) {
                None => (memory, false),
                Some(word) => (
                    overwritten(
                        memory,
                        target,
                        bytes32(((word + delta) % 0x1_0000_0000) as u32),
                    ),
                    true,
                ),
            },
            RelocationType::Unsupported(_) => (memory, false),
        }
    }
}

/// The memory after the first `count` relocations of a page; one that cannot
/// be made ends the work.
pub open spec fn entries_applied(
    memory: Seq<u8>,
    page: u32,
    entries: Seq<RelocationEntry>,
    count: int,
    delta: int,
) -> (Seq<u8>, bool)
    decreases count,
{
    if count <= 0 {
        (memory, true)
    } else {
        let before = entries_applied(memory, page, entries, count - 1, delta);
        if before.1 {
            entry_applied(before.0, page, entries[count - 1], delta)
        } else {
            before
        }
    }
}

/// The memory after the relocations of the first `count` pages.
pub open spec fn blocks_applied(
    memory: Seq<u8>,
    blocks: Seq<RelocationBlockModel>,
    count: int,
    delta: int,
) -> (Seq<u8>, bool)
    decreases count,
{
    if count <= 0 {
        (memory, true)
    } else {
        let before = blocks_applied(memory, blocks, count - 1, delta);
        if before.1 {
            let block = blocks[count - 1];
            entries_applied(
                before.0,
                block.page_rva,
                block.entries,
                block.entries.len() as int,
                delta,
            )
        } else {
            before
        }
    }
}

/// The memory after an image that prefers `preferred` has been moved to
/// `base`, and whether it could be.
pub open spec fn relocated(
    memory: Seq<u8>,
    blocks: Seq<RelocationBlockModel>,
    preferred: u64,
    base: u64,
) -> (Seq<u8>, bool) {
    if preferred == base {
        (memory, true)
    } else {
        blocks_applied(memory, blocks, blocks.len() as int, base - preferred)
    }
}

proof fn lemma_overwritten_twice(bytes: Seq<u8>, at: int, first: Seq<u8>, second: Seq<u8>)
    requires
        first.len() == second.len(),
    ensures
        overwritten(overwritten(bytes, at, first), at, second) == overwritten(bytes, at, second),
{
    assert(overwritten(overwritten(bytes, at, first), at, second) =~= overwritten(
        bytes,
        at,
        second,
    ));
}

#[verifier::spinoff_prover]
proof fn lemma_word64_moved_back(memory: Seq<u8>, target: int, delta: int)
    requires
        u64_at(memory, target) is Some,
    ensures
        ({
            let word = u64_at(memory, target)->0;
            let grown = ((word + delta) % 0x1_0000_0000_0000_0000) as u64;
            let moved = overwritten(memory, target, bytes64(grown));
            &&& u64_at(moved, target) == Some(grown)
            &&& overwritten(
                moved,
                target,
                bytes64(((grown + -delta) % 0x1_0000_0000_0000_0000) as u64),
            ) == memory
        }),
{
    let word = u64_at(memory, target)->0;
    let grown = ((word + delta) % 0x1_0000_0000_0000_0000) as u64;
    lemma_le64_reads_back(memory, target, grown);
    lemma_there_and_back(word as int, delta, 0x1_0000_0000_0000_0000);
    lemma_word64_put_back(memory, target);
    lemma_overwritten_twice(memory, target, bytes64(grown), bytes64(word));
}

#[verifier::spinoff_prover]
proof fn lemma_word32_moved_back(memory: Seq<u8>, target: int, delta: int)
    requires
        u32_at(memory, target) is Some,
    ensures
        ({
            let word = u32_at(memory, target)->0;
            let grown = ((word + delta) % 0x1_0000_0000) as u32;
            let moved = overwritten(memory, target, bytes32(grown));
            &&& u32_at(moved, target) == Some(grown)
            &&& overwritten(moved, target, bytes32(((grown + -delta) % 0x1_0000_0000) as u32))
                == memory
        }),
{
    let word = u32_at(memory, target)->0;
    let grown = ((word + delta) % 0x1_0000_0000) as u32;
    lemma_le32_reads_back(memory, target, grown);
    lemma_there_and_back(word as int, delta, 0x1_0000_0000);
    lemma_word32_put_back(memory, target);
    lemma_overwritten_twice(memory, target, bytes32(grown), bytes32(word));
}

/// A relocation is undone by moving back by as much.
#[verifier::spinoff_prover]
pub proof fn lemma_entry_undone(memory: Seq<u8>, page: u32, entry: RelocationEntry, delta: int)
    requires
        entry_applied(memory, page, entry, delta).1,
    ensures
        entry_applied(entry_applied(memory, page, entry, delta).0, page, entry, -delta) == (
            memory,
            true,
        ),
{
    let target = page + entry.offset;
    match entry.kind {
        RelocationType::Dir64 => {
            lemma_word64_moved_back(memory, target, delta);
        },
        RelocationType::HighLow => {
            lemma_word32_moved_back(memory, target, delta);
        },
        _ => {},
    }
}

pub(crate) proof fn lemma_there_and_back(word: int, delta: int, modulus: int)
    requires
        0 <= word < modulus,
    ensures
        ((word + delta) % modulus - delta) % modulus == word,
{
    let quotient = (word + delta) / modulus;
    let grown = (word + delta) % modulus;
    assert(word + delta == modulus * quotient + grown) by (nonlinear_arith)
        requires
            modulus > 0,
            quotient == (word + delta) / modulus,
            grown == (word + delta) % modulus,
    ;
    assert((grown - delta) % modulus == word) by (nonlinear_arith)
        requires
            0 <= word < modulus,
            grown - delta == word - modulus * quotient,
    {
        vstd::arithmetic::div_mod::lemma_fundamental_div_mod_converse(
            grown - delta,
            modulus,
            -quotient,
            word,
        );
    }
}

proof fn lemma_bytes_of_word(a: u8, b: u8, c: u8, d: u8)
    ensures
        ({
            let word = (a + 0x100 * b + 0x1_0000 * c + 0x100_0000 * d) as u32;
            &&& word % 0x100 == a
            &&& word / 0x100 % 0x100 == b
            &&& word / 0x1_0000 % 0x100 == c
            &&& word / 0x100_0000 == d
        }),
{
}

proof fn lemma_word32_put_back(memory: Seq<u8>, at: int)
    requires
        in_range(memory, at, 4),
    ensures
        overwritten(memory, at, bytes32(crate::bytes::le32(memory, at))) == memory,
{
    let word = crate::bytes::le32(memory, at);
    let part = bytes32(word);
    let (a, b, c, d) = (memory[at], memory[at + 1], memory[at + 2], memory[at + 3]);
    assert(word == a + 0x100 * b + 0x1_0000 * c + 0x100_0000 * d);
    lemma_bytes_of_word(a, b, c, d);
    assert(part =~= seq![a, b, c, d]);
    assert(overwritten(memory, at, part) =~= memory);
}

proof fn lemma_halves_of_word(low: u32, high: u32)
    ensures
        ({
            let word = (low + 0x1_0000_0000 * high) as u64;
            &&& word % 0x1_0000_0000 == low
            &&& word / 0x1_0000_0000 == high
        }),
{
}

proof fn lemma_word64_put_back(memory: Seq<u8>, at: int)
    requires
        in_range(memory, at, 8),
    ensures
        overwritten(memory, at, bytes64(crate::bytes::le64(memory, at))) == memory,
{
    let low = crate::bytes::le32(memory, at);
    let high = crate::bytes::le32(memory, at + 4);
    lemma_halves_of_word(low, high);
    assert(bytes64(crate::bytes::le64(memory, at)) == bytes32(low) + bytes32(high));
    lemma_word32_put_back(memory, at);
    lemma_word32_put_back(memory, at + 4);
    lemma_two_parts(memory, at, bytes32(low), bytes32(high));
}

proof fn lemma_two_parts(memory: Seq<u8>, at: int, first: Seq<u8>, second: Seq<u8>)
    requires
        0 <= at,
        overwritten(memory, at, first) == memory,
        overwritten(memory, at + first.len(), second) == memory,
    ensures
        overwritten(memory, at, first + second) == memory,
{
    let both = overwritten(memory, at, first + second);
    assert forall|i: int| 0 <= i < memory.len() implies both[i] == memory[i] by {
        assert(overwritten(memory, at, first)[i] == memory[i]);
        assert(overwritten(memory, at + first.len(), second)[i] == memory[i]);
    }
    assert(both =~= memory);
}

/// Relocations never change the size of the memory.
pub proof fn lemma_relocation_keeps_size(
    memory: Seq<u8>,
    blocks: Seq<RelocationBlockModel>,
    preferred: u64,
    base: u64,
)
    ensures
        relocated(memory, blocks, preferred, base).0.len() == memory.len(),
{
    lemma_blocks_keep_size(memory, blocks, blocks.len() as int, base - preferred);
}

proof fn lemma_entries_keep_size(
    memory: Seq<u8>,
    page: u32,
    entries: Seq<RelocationEntry>,
    count: int,
    delta: int,
)
    ensures
        entries_applied(memory, page, entries, count, delta).0.len() == memory.len(),
    decreases count,
{
    if count > 0 {
        lemma_entries_keep_size(memory, page, entries, count - 1, delta);
    }
}

proof fn lemma_blocks_keep_size(
    memory: Seq<u8>,
    blocks: Seq<RelocationBlockModel>,
    count: int,
    delta: int,
)
    ensures
        blocks_applied(memory, blocks, count, delta).0.len() == memory.len(),
    decreases count,
{
    if count > 0 {
        lemma_blocks_keep_size(memory, blocks, count - 1, delta);
        let before = blocks_applied(memory, blocks, count - 1, delta);
        let block = blocks[count - 1];
        lemma_entries_keep_size(
            before.0,
            block.page_rva,
            block.entries,
            block.entries.len() as int,
            delta,
        );
    }
}

fn moved64(word: u64, preferred: u64, base: u64) -> (grown: u64)
    ensures
        grown == (word + (base - preferred)) % 0x1_0000_0000_0000_0000,
{
    word.wrapping_add(base.wrapping_sub(preferred))
}

fn moved32(word: u32, preferred: u64, base: u64) -> (grown: u32)
    ensures
        grown == (word + (base - preferred)) % 0x1_0000_0000,
{
    let distance: u64 = base.wrapping_sub(preferred);
    let step: u64 = distance % 0x1_0000_0000;
    let grown: u64 = (word as u64 + step) % 0x1_0000_0000;
    proof {
        let wrap: int = if base < preferred {
            0x1_0000_0000_0000_0000
        } else {
            0
        };
        assert(distance == base - preferred + wrap);
        let quotient = distance as int / 0x1_0000_0000;
        assert(word + step == word + (base - preferred) + wrap - 0x1_0000_0000 * quotient);
        assert((word + step) % 0x1_0000_0000 == (word + (base - preferred)) % 0x1_0000_0000);
    }
    grown as u32
}

fn apply_entry(memory: &mut Vec<u8>, page: u32, entry: RelocationEntry, preferred: u64, base: u64) -> (
outcome: AppResult<()>)
    ensures
        (final(memory)@, outcome is Ok) == entry_applied(
            old(memory)@,
            page,
            entry,
            base - preferred,
        ),
        outcome matches Err(error) ==> error.code == ReasonCode::RcPeParseInvalid,
{
    let target: u32 = match page.checked_add(entry.offset as u32) {
        Some(target) => target,
        None => {
            return invalid("relocation target overflow");
        },
    };
    match entry.kind {
        RelocationType::Absolute => Ok(()),
        RelocationType::Dir64 => match read_u64(memory, target as usize, "DIR64 relocation target") {
            Err(error) => Err(error),
            Ok(word) => {
                let grown: u64 = moved64(word, preferred, base);
                write_u64(memory, target as usize, grown)
            },
        },
        RelocationType::HighLow => match read_u32(
            memory,
            target as usize,
            "HIGHLOW relocation target",
        ) {
            Err(error) => Err(error),
            Ok(word) => {
                let grown: u32 = moved32(word, preferred, base);
                write_u32(memory, target as usize, grown)
            },
        },
        RelocationType::Unsupported(kind) => invalid(
            &noted("unsupported relocation type ", kind as u64, ""),
        ),
    }
}

fn apply_block(memory: &mut Vec<u8>, block: &RelocationBlock, preferred: u64, base: u64) -> (outcome:
    AppResult<()>)
    ensures
        (final(memory)@, outcome is Ok) == entries_applied(
            old(memory)@,
            block.page_rva,
            block.entries@,
            block.entries@.len() as int,
            base - preferred,
        ),
        outcome matches Err(error) ==> error.code == ReasonCode::RcPeParseInvalid,
{
    let ghost start = memory@;
    let mut i: usize = 0;
    while i < block.entries.len()
        invariant
            i <= block.entries.len(),
            start == old(memory)@,
            (memory@, true) == entries_applied(
                start,
                block.page_rva,
                block.entries@,
                i as int,
                base - preferred,
            ),
        decreases block.entries.len() - i,
    {
        match apply_entry(memory, block.page_rva, block.entries[i], preferred, base) {
            Ok(()) => {},
            Err(error) => {
                proof {
                    lemma_entries_stuck(
                        start,
                        block.page_rva,
                        block.entries@,
                        i + 1,
                        block.entries@.len() as int,
                        base - preferred,
                    );
                }
                return Err(error);
            },
        }
        i += 1;
    }
    Ok(())
}

proof fn lemma_entries_stuck(
    memory: Seq<u8>,
    page: u32,
    entries: Seq<RelocationEntry>,
    first: int,
    count: int,
    delta: int,
)
    requires
        0 <= first <= count,
        !entries_applied(memory, page, entries, first, delta).1,
    ensures
        entries_applied(memory, page, entries, count, delta) == entries_applied(
            memory,
            page,
            entries,
            first,
            delta,
        ),
    decreases count,
{
    if first < count {
        lemma_entries_stuck(memory, page, entries, first, count - 1, delta);
    }
}

proof fn lemma_blocks_stuck(
    memory: Seq<u8>,
    blocks: Seq<RelocationBlockModel>,
    first: int,
    count: int,
    delta: int,
)
    requires
        0 <= first <= count,
        !blocks_applied(memory, blocks, first, delta).1,
    ensures
        blocks_applied(memory, blocks, count, delta) == blocks_applied(
            memory,
            blocks,
            first,
            delta,
        ),
    decreases count,
{
    if first < count {
        lemma_blocks_stuck(memory, blocks, first, count - 1, delta);
    }
}

fn relocate(memory: &mut Vec<u8>, blocks: &Vec<RelocationBlock>, preferred: u64, base: u64) -> (outcome:
    AppResult<()>)
    ensures
        (final(memory)@, outcome is Ok) == relocated(
            old(memory)@,
            blocks.deep_view(),
            preferred,
            base,
        ),
        outcome matches Err(error) ==> error.code == ReasonCode::RcPeParseInvalid,
{
    if base == preferred {
        return Ok(());
    }
    let ghost start = memory@;
    let ghost all = blocks.deep_view();
    let mut i: usize = 0;
    while i < blocks.len()
        invariant
            i <= blocks.len(),
            start == old(memory)@,
            all == blocks.deep_view(),
            base != preferred,
            (memory@, true) == blocks_applied(start, all, i as int, base - preferred),
        decreases blocks.len() - i,
    {
        assert(all[i as int] == blocks@[i as int].deep_view());
        assert(all[i as int].entries =~= blocks@[i as int].entries@);
        match apply_block(memory, &blocks[i], preferred, base) {
            Ok(()) => {},
            Err(error) => {
                proof {
                    lemma_blocks_stuck(start, all, i + 1, all.len() as int, base - preferred);
                }
                return Err(error);
            },
        }
        i += 1;
    }
    Ok(())
}

/// Adjusts a mapped image to its base address. Where a relocation cannot be
/// made, those before it stay made.
pub fn apply_relocations(image: &ParsedPe, mapped: &mut MappedImage) -> (outcome: AppResult<()>)
    ensures
        (final(mapped).memory@, outcome is Ok) == relocated(
            old(mapped).memory@,
            image.deep_view().relocations,
            image.image_base,
            old(mapped).selected_base,
        ),
        final(mapped).preferred_base == old(mapped).preferred_base,
        final(mapped).selected_base == old(mapped).selected_base,
        final(mapped).sections == old(mapped).sections,
        outcome matches Err(error) ==> error.code == ReasonCode::RcPeParseInvalid,
{
    let base: u64 = mapped.selected_base;
    relocate(&mut mapped.memory, &image.relocations, image.image_base, base)
}

// ---------------------------------------------------------------------------
// Mapping
// ---------------------------------------------------------------------------

/// What the characteristics of a section allow.
pub open spec fn allowed(characteristics: u32) -> MemoryProtection {
    MemoryProtection {
        read: characteristics & IMAGE_SCN_MEM_READ != 0,
        write: characteristics & IMAGE_SCN_MEM_WRITE != 0,
        execute: characteristics & IMAGE_SCN_MEM_EXECUTE != 0,
    }
}

/// What the characteristics of a section allow.
pub fn protection_from_characteristics(characteristics: u32) -> (protection: MemoryProtection)
    ensures
        protection == allowed(characteristics),
{
    MemoryProtection {
        read: characteristics & IMAGE_SCN_MEM_READ != 0,
        write: characteristics & IMAGE_SCN_MEM_WRITE != 0,
        execute: characteristics & IMAGE_SCN_MEM_EXECUTE != 0,
    }
}

/// The size of a section in memory.
pub open spec fn mapped_size(section: PeSectionModel, alignment: u32) -> Option<u32> {
    aligned_up(
        if section.virtual_size > section.raw_data_size {
            section.virtual_size
        } else {
            section.raw_data_size
        },
        alignment,
    )
}

/// The memory after a section has been copied into it.
pub open spec fn section_laid(
    memory: Seq<u8>,
    file: Seq<u8>,
    section: PeSectionModel,
    alignment: u32,
) -> Option<Seq<u8>> {
    match mapped_size(section, alignment) {
        None => None,
        Some(size) => if !in_range(memory, section.virtual_address as int, size as int) {
            None
        } else if section.raw_data_size == 0 {
            Some(memory)
        } else if !in_range(file, section.raw_data_ptr as int, section.raw_data_size as int) {
            None
        } else {
            Some(
                overwritten(
                    memory,
                    section.virtual_address as int,
                    file.subrange(
                        section.raw_data_ptr as int,
                        section.raw_data_ptr + section.raw_data_size,
                    ),
                ),
            )
        },
    }
}

/// The memory after the first `count` sections have been copied into it.
pub open spec fn sections_laid(
    memory: Seq<u8>,
    file: Seq<u8>,
    sections: Seq<PeSectionModel>,
    count: int,
    alignment: u32,
) -> Option<Seq<u8>>
    decreases count,
{
    if count <= 0 {
        Some(memory)
    } else {
        match sections_laid(memory, file, sections, count - 1, alignment) {
            None => None,
            Some(before) => section_laid(before, file, sections[count - 1], alignment),
        }
    }
}

/// What is said of a section that was mapped.
pub open spec fn mapping_of(section: PeSectionModel, alignment: u32) -> SectionMappingModel {
    SectionMappingModel {
        name: section.name,
        virtual_address: section.virtual_address,
        mapped_size: mapped_size(section, alignment)->0,
        raw_data_size: section.raw_data_size,
        protection: allowed(section.characteristics),
    }
}

/// The image mapped at `base` over the given memory.
pub open spec fn mapped_over(
    memory: Seq<u8>,
    file: Seq<u8>,
    image: ParsedPeModel,
    base: u64,
) -> Option<MappedImageModel> {
    if !in_range(memory, 0, image.size_of_headers as int) || !in_range(
        file,
        0,
        image.size_of_headers as int,
    ) {
        None
    } else {
        let headed = overwritten(memory, 0, file.subrange(0, image.size_of_headers as int));
        match sections_laid(
            headed,
            file,
            image.sections,
            image.sections.len() as int,
            image.section_alignment,
        ) {
            None => None,
            Some(laid) => {
                let moved = relocated(laid, image.relocations, image.image_base, base);
                if moved.1 {
                    Some(
                        MappedImageModel {
                            preferred_base: image.image_base,
                            selected_base: base,
                            memory: moved.0,
                            sections: image.sections.map_values(
                                |section: PeSectionModel|
                                    mapping_of(section, image.section_alignment),
                            ),
                        },
                    )
                } else {
                    None
                }
            },
        }
    }
}

/// Memory of the given size that holds zeros.
pub open spec fn zeros(size: nat) -> Seq<u8> {
    Seq::new(size, |i: int| 0u8)
}

fn lay_section(memory: &mut Vec<u8>, bytes: &[u8], section: &PeSection, alignment: u32) -> (outcome:
    AppResult<SectionMapping>)
    ensures
        match outcome {
            Ok(mapping) => {
                &&& section_laid(old(memory)@, bytes@, section.deep_view(), alignment) == Some(
                    final(memory)@,
                )
                &&& mapping.deep_view() == mapping_of(section.deep_view(), alignment)
            },
            Err(error) => {
                &&& section_laid(old(memory)@, bytes@, section.deep_view(), alignment) is None
                &&& error.code == ReasonCode::RcPeParseInvalid
            },
        },
{
    let extent: u32 = if section.virtual_size > section.raw_data_size {
        section.virtual_size
    } else {
        section.raw_data_size
    };
    let size: u32 = match align_up(extent, alignment) {
        Ok(size) => size,
        Err(error) => {
            return Err(error);
        },
    };
    proof {
        crate::pe::headers::lemma_aligned_up(extent, alignment);
    }
    match checked_range(
        memory,
        section.virtual_address as usize,
        size as usize,
        "mapped section",
    ) {
        Ok(()) => {},
        Err(error) => {
            return Err(error);
        },
    }
    if section.raw_data_size > 0 {
        let raw: &[u8] = match slice(
            bytes,
            section.raw_data_ptr as usize,
            section.raw_data_size as usize,
            "section raw payload",
        ) {
            Ok(raw) => raw,
            Err(error) => {
                return Err(error);
            },
        };
        overwrite(memory, section.virtual_address as usize, raw);
    }
    Ok(
        SectionMapping {
            name: section.name.clone(),
            virtual_address: section.virtual_address,
            mapped_size: size,
            raw_data_size: section.raw_data_size,
            protection: protection_from_characteristics(section.characteristics),
        },
    )
}

/// Maps an image at `base` over the given memory.
pub fn map_over(memory: Vec<u8>, bytes: &[u8], image: &ParsedPe, base: u64) -> (outcome: AppResult<
    MappedImage,
>)
    ensures
        agrees(
            outcome,
            ReasonCode::RcPeParseInvalid,
            mapped_over(memory@, bytes@, image.deep_view(), base),
        ),
{
    let ghost expected = mapped_over(memory@, bytes@, image.deep_view(), base);
    let mut space: Vec<u8> = memory;
    let size_of_headers: usize = image.size_of_headers as usize;
    if size_of_headers > space.len() {
        return invalid("SizeOfHeaders exceeds SizeOfImage");
    }
    let headers: &[u8] = match slice(bytes, 0, size_of_headers, "headers") {
        Ok(headers) => headers,
        Err(error) => {
            return Err(error);
        },
    };
    overwrite(&mut space, 0, headers);
    let ghost headed = space@;
    let ghost all = image.deep_view().sections;
    let ghost laid = sections_laid(
        headed,
        bytes@,
        all,
        all.len() as int,
        image.section_alignment,
    );
    let mut mappings: Vec<SectionMapping> = Vec::new();
    let mut i: usize = 0;
    while i < image.sections.len()
        invariant
            i <= image.sections.len(),
            all == image.deep_view().sections,
            sections_laid(headed, bytes@, all, i as int, image.section_alignment) == Some(space@),
            mappings.deep_view() == all.take(i as int).map_values(
                |section: PeSectionModel| mapping_of(section, image.section_alignment),
            ),
            laid == sections_laid(
                headed,
                bytes@,
                all,
                all.len() as int,
                image.section_alignment,
            ),
            laid is None ==> expected is None,
            expected == mapped_over(memory@, bytes@, image.deep_view(), base),
        decreases image.sections.len() - i,
    {
        assert(all[i as int] == image.sections@[i as int].deep_view());
        let ghost before = mappings.deep_view();
        match lay_section(&mut space, bytes, &image.sections[i], image.section_alignment) {
            Ok(mapping) => {
                mappings.push(mapping);
                assert(mappings.deep_view() =~= before.push(mapping.deep_view()));
                assert(mappings.deep_view() =~= all.take(i + 1).map_values(
                    |section: PeSectionModel| mapping_of(section, image.section_alignment),
                ));
            },
            Err(error) => {
                proof {
                    lemma_sections_stuck(
                        headed,
                        bytes@,
                        all,
                        i + 1,
                        all.len() as int,
                        image.section_alignment,
                    );
                }
                return Err(error);
            },
        }
        i += 1;
    }
    assert(all.take(i as int) =~= all);
    match relocate(&mut space, &image.relocations, image.image_base, base) {
        Ok(()) => {},
        Err(error) => {
            return Err(error);
        },
    }
    let mapped = MappedImage {
        preferred_base: image.image_base,
        selected_base: base,
        memory: space,
        sections: mappings,
    };
    assert(mapped.deep_view().memory =~= mapped.memory@);
    Ok(mapped)
}

proof fn lemma_sections_stuck(
    memory: Seq<u8>,
    file: Seq<u8>,
    sections: Seq<PeSectionModel>,
    first: int,
    count: int,
    alignment: u32,
)
    requires
        0 <= first <= count,
        sections_laid(memory, file, sections, first, alignment) is None,
    ensures
        sections_laid(memory, file, sections, count, alignment) is None,
    decreases count,
{
    if first < count {
        lemma_sections_stuck(memory, file, sections, first, count - 1, alignment);
    }
}

/// Calls `Vec::try_reserve_exact`. Claims that the list keeps what it holds;
/// whether there is room depends on the machine.
#[verifier::external_body]
fn reserve(list: &mut Vec<u8>, additional: usize) -> (has_room: bool)
    ensures
        final(list)@ == old(list)@,
{
    list.try_reserve_exact(additional).is_ok()
}

/// How many bytes an image takes in memory; its headers have to fit into them.
pub fn room_needed(image: &ParsedPe) -> (outcome: AppResult<usize>)
    ensures
        match outcome {
            Ok(size) => image.size_of_headers <= image.size_of_image && size
                == image.size_of_image,
            Err(error) => {
                &&& image.size_of_headers > image.size_of_image
                &&& error.code == ReasonCode::RcPeParseInvalid
                &&& error.message@ == "SizeOfHeaders exceeds SizeOfImage"@
            },
        },
{
    if image.size_of_headers > image.size_of_image {
        return invalid("SizeOfHeaders exceeds SizeOfImage");
    }
    Ok(image.size_of_image as usize)
}

/// Maps an image into memory of its own: its headers and sections, zeros
/// between them, moved to the base address that is picked for it. The room is
/// reserved first, as much as [`room_needed`] says; where the machine has none,
/// that is the refusal, and any other refusal means that the image cannot be
/// mapped at all.
pub fn map_image(bytes: &[u8], image: &ParsedPe, image_hash: &str, dtm: bool, runtime_seed: u64) -> (
outcome: AppResult<MappedImage>)
    ensures
        ({
            let expected = mapped_over(
                zeros(image.size_of_image as nat),
                bytes@,
                image.deep_view(),
                base_of(image.deep_view(), encode_utf8(image_hash@), dtm, runtime_seed),
            );
            match outcome {
                Ok(mapped) => expected == Some(mapped.deep_view()),
                Err(error) => {
                    &&& error.code == ReasonCode::RcPeParseInvalid
                    &&& expected is None || image.size_of_image > 0 && error.message@
                        == "SizeOfImage is too large to map"@
                    &&& image.size_of_headers > image.size_of_image ==> error.message@
                        == "SizeOfHeaders exceeds SizeOfImage"@
                },
            }
        }),
{
    let base: u64 = select_image_base(image, image_hash, dtm, runtime_seed);
    let size: usize = match room_needed(image) {
        Ok(size) => size,
        Err(error) => {
            return Err(error);
        },
    };
    let mut memory: Vec<u8> = Vec::new();
    if size > 0 && !reserve(&mut memory, size) {
        return invalid("SizeOfImage is too large to map");
    }
    memory.resize(size, 0);
    assert(memory@ =~= zeros(image.size_of_image as nat));
    map_over(memory, bytes, image, base)
}

/// The byte writes a hexadecimal digit of the given value, in a small or a
/// large letter.
pub open spec fn writes_digit(byte: u8, value: int) -> bool {
    ||| 0 <= value < 10 && byte == 48 + value
    ||| 10 <= value < 16 && (byte == 97 + (value - 10) || byte == 65 + (value - 10))
}

/// The number of a hash begins at nothing, and two digits more, as long as
/// there are no more than sixteen, make it 256 times as large and add the byte
/// that they write; what comes behind sixteen digits does not count.
pub proof fn lemma_seed_of(hash: Seq<u8>, first: u8, second: u8, high: int, low: int)
    requires
        writes_digit(first, high),
        writes_digit(second, low),
    ensures
        seed_of(Seq::<u8>::empty()) == 0,
        hash.len() % 2 == 0 && hash.len() < 16 ==> seed_of(hash + seq![first, second]) == 256
            * seed_of(hash) + 16 * high + low,
        hash.len() >= 16 ==> seed_of(hash) == seed_of(hash.take(16)),
{
    if hash.len() % 2 == 0 && hash.len() < 16 {
        let longer = hash + seq![first, second];
        let count = hash.len() as int / 2;
        lemma_hash_prefix(longer, hash, count);
        assert(longer.subrange(2 * count, 2 * count + 2) =~= seq![first, second]);
        assert(hash_bytes(longer) == count + 1);
        assert(hash_bytes(hash) == count);
    }
    if hash.len() >= 16 {
        lemma_hash_prefix(hash, hash.take(16), 8);
    }
}

proof fn lemma_hash_prefix(longer: Seq<u8>, shorter: Seq<u8>, count: int)
    requires
        0 <= count,
        2 * count <= shorter.len() <= longer.len(),
        forall|i: int| 0 <= i < shorter.len() ==> longer[i] == #[trigger] shorter[i],
    ensures
        hash_number(longer, count) == hash_number(shorter, count),
    decreases count,
{
    if count > 0 {
        lemma_hash_prefix(longer, shorter, count - 1);
        let k = count - 1;
        assert(longer.subrange(2 * k, 2 * k + 2) =~= shorter.subrange(2 * k, 2 * k + 2));
    }
}

/// An image that may not be moved, or cannot be for want of relocations, stays
/// at the address that it prefers. A choice that is to be the same in every run
/// does not depend on the run, and lies as far into the region of its kind as
/// the number of the hash says, whole pieces of 64 KiB counted and the region
/// never left. In any other run the number of the run comes into it: with none
/// the choice is the same, and with the hash's own it is the first one.
pub proof fn lemma_base_chosen(
    image: ParsedPeModel,
    hash: Seq<u8>,
    runtime_seed: u64,
    other_seed: u64,
)
    ensures
        image.dll_characteristics / 0x40 % 2 == 0 || image.relocations.len() == 0 ==> base_of(
            image,
            hash,
            true,
            runtime_seed,
        ) == image.image_base && base_of(image, hash, false, runtime_seed) == image.image_base,
        base_of(image, hash, true, runtime_seed) == base_of(image, hash, true, other_seed),
        base_of(image, hash, false, 0) == base_of(image, hash, true, runtime_seed),
        image.dll_characteristics / 0x40 % 2 == 1 && image.relocations.len() > 0 ==> {
            let seed = seed_of(hash);
            let wide = image.optional_header_magic == 0x20b;
            let base = base_of(image, hash, true, runtime_seed);
            &&& wide ==> base - 0x1800_0000_0000 == seed % 0x1000_0000_0000 - seed % 0x1_0000
            &&& !wide ==> base - 0x1000_0000 == seed % 0x1000_0000 - seed % 0x1_0000
            &&& base_of(image, hash, false, seed as u64) == (if wide {
                0x1800_0000_0000u64
            } else {
                0x1000_0000u64
            })
        },
{
    lemma_hash_bounded(hash, hash_bytes(hash));
    reveal_with_fuel(byte_range, 9);
    let bits = image.dll_characteristics;
    assert((bits & 0x40u16 != 0) == (bits / 0x40 % 2 == 1)) by (bit_vector);
    let seed = seed_of(hash) as u64;
    assert(seed ^ 0u64 == seed) by (bit_vector);
    assert(seed ^ seed == 0u64) by (bit_vector);
}

/// One more than the largest number that `count` bytes make.
spec fn byte_range(count: int) -> int
    decreases count,
{
    if count <= 0 {
        1
    } else {
        256 * byte_range(count - 1)
    }
}

proof fn lemma_hash_bounded(hash: Seq<u8>, count: int)
    requires
        0 <= count <= 8,
    ensures
        0 <= hash_number(hash, count) < byte_range(count),
    decreases count,
{
    if count > 0 {
        lemma_hash_bounded(hash, count - 1);
        assert(0 <= hash_byte(hash, count - 1) < 256);
    }
}

} // verus!
