//! Translated blocks of guest code and the direct jumps between them.
use crate::error::{AppError, AppResult, ReasonCode};
use crate::ids::{keys_of, lemma_filter_step, lists_keys, sorted_keys};
use crate::order::lemma_filtered;
use crate::text::{padded_hex, surrounded};
use std::collections::BTreeMap;
use vstd::prelude::*;

verus! {

broadcast use vstd::std_specs::btree::group_btree_axioms;

/// How often a block must have run before it is chained.
pub const CHAIN_THRESHOLD: u64 = 10;

/// A translated block of guest code.
#[derive(Debug, Clone, Copy)]
pub struct TranslatedBlock {
    /// Guest address of the block's entry.
    pub guest_address: u64,
    /// Host address of the translated code.
    pub host_address: u64,
    /// Size of the translated code in bytes.
    pub code_size: usize,
    /// How often the block has run.
    pub execution_count: u64,
    /// Guest address of the block that ran after it last.
    pub fallthrough_target: Option<u64>,
    /// Whether the block jumps straight to its successor.
    pub is_chained: bool,
    pub instruction_count: usize,
}

/// A jump from one translated block to another.
#[derive(Debug, Clone, Copy)]
pub struct BlockChain {
    pub from_address: u64,
    pub to_address: u64,
    pub patch_offset: usize,
    pub is_active: bool,
}

/// How many of `chains` are active and start at one of the addresses `from`.
pub open spec fn active_from(chains: Seq<BlockChain>, from: Set<u64>) -> nat
    decreases chains.len(),
{
    if chains.len() == 0 {
        0
    } else {
        active_from(chains.drop_last(), from) + if chains.last().is_active && from.contains(
            chains.last().from_address,
        ) {
            1nat
        } else {
            0
        }
    }
}

/// `chain`, inactive where it starts at one of the addresses `from`.
pub open spec fn cut(chain: BlockChain, from: Set<u64>) -> BlockChain {
    if from.contains(chain.from_address) {
        BlockChain { is_active: false, ..chain }
    } else {
        chain
    }
}

/// `chains`, with those that start at one of the addresses `from` inactive.
pub open spec fn unchained(chains: Seq<BlockChain>, from: Set<u64>) -> Seq<BlockChain> {
    chains.map_values(|chain: BlockChain| cut(chain, from))
}

/// How far the entry of `to` lies behind the end of `from`, or 0 where it does
/// not lie behind it.
pub open spec fn patch_distance(from: TranslatedBlock, to: TranslatedBlock) -> int {
    let end = from.host_address + from.code_size;
    if end <= to.host_address {
        to.host_address - end
    } else {
        0
    }
}

/// The addresses of registered blocks in the half-open range.
pub open spec fn within(blocks: Map<u64, TranslatedBlock>, start: u64, end: u64) -> Set<u64> {
    Set::new(|address: u64| blocks.contains_key(address) && start <= address < end)
}

/// The addresses of the blocks that have run `threshold` times or more,
/// ascending.
pub open spec fn hot_addresses(blocks: Map<u64, TranslatedBlock>, threshold: u64) -> Seq<u64> {
    keys_of(blocks).filter(|address: u64| blocks[address].execution_count >= threshold)
}

proof fn lemma_active_split(chains: Seq<BlockChain>, done: Set<u64>, next: u64)
    ensures
        active_from(chains, done.insert(next)) == active_from(chains, done) + active_from(
            unchained(chains, done),
            set![next],
        ),
        unchained(unchained(chains, done), set![next]) == unchained(chains, done.insert(next)),
    decreases chains.len(),
{
    if chains.len() > 0 {
        lemma_active_split(chains.drop_last(), done, next);
        assert(unchained(chains, done).drop_last() =~= unchained(chains.drop_last(), done));
    }
    assert(unchained(unchained(chains, done), set![next]) =~= unchained(
        chains,
        done.insert(next),
    ));
}

proof fn lemma_active_left(chains: Seq<BlockChain>, from: Set<u64>)
    ensures
        active_from(unchained(chains, from), Set::full()) + active_from(chains, from)
            == active_from(chains, Set::full()),
    decreases chains.len(),
{
    if chains.len() > 0 {
        lemma_active_left(chains.drop_last(), from);
        assert(unchained(chains, from).drop_last() =~= unchained(chains.drop_last(), from));
    }
}

proof fn lemma_none_from(chains: Seq<BlockChain>)
    ensures
        active_from(chains, Set::empty()) == 0,
        unchained(chains, Set::empty()) == chains,
    decreases chains.len(),
{
    if chains.len() > 0 {
        lemma_none_from(chains.drop_last());
    }
    assert(unchained(chains, Set::empty()) =~= chains);
}

/// The translated blocks, and the chains that lead from one straight to the
/// next instead of through the dispatcher.
pub struct BlockChainingCache {
    blocks: BTreeMap<u64, TranslatedBlock>,
    chains: Vec<BlockChain>,
    total_chains_active: u64,
    total_chains_broken: u64,
}

impl BlockChainingCache {
    /// The registered blocks by guest address.
    pub closed spec fn blocks(&self) -> Map<u64, TranslatedBlock> {
        self.blocks@
    }

    /// All chains, broken ones too, oldest first.
    pub closed spec fn chains(&self) -> Seq<BlockChain> {
        self.chains@
    }

    /// How many chains were ever made.
    pub closed spec fn created(&self) -> nat {
        self.total_chains_active as nat
    }

    /// How many chains were ever broken.
    pub closed spec fn broken(&self) -> nat {
        self.total_chains_broken as nat
    }

    /// The number of active chains.
    pub open spec fn active(&self) -> nat {
        active_from(self.chains(), Set::full())
    }

    /// Every chain that is active or was broken was made once, and a block
    /// stands under its own address.
    pub open spec fn valid(&self) -> bool {
        &&& self.broken() + self.active() <= self.created()
        &&& forall|address: u64| #[trigger]
            self.blocks().contains_key(address) ==> self.blocks()[address].guest_address == address
    }

    /// Every chain that was made is active or was broken. Only
    /// [`Self::invalidate_all`] forgets active chains without breaking them.
    pub open spec fn accounted(&self) -> bool {
        self.created() == self.broken() + self.active()
    }

    pub fn new() -> (cache: Self)
        ensures
            cache.valid(),
            cache.accounted(),
            cache.blocks() == Map::<u64, TranslatedBlock>::empty(),
            cache.chains() == Seq::<BlockChain>::empty(),
            cache.created() == 0,
            cache.broken() == 0,
    {
        BlockChainingCache {
            blocks: BTreeMap::new(),
            chains: Vec::new(),
            total_chains_active: 0,
            total_chains_broken: 0,
        }
    }

    /// Registers a block, in place of one at the same address.
    pub fn register_block(
        &mut self,
        guest_address: u64,
        host_address: u64,
        code_size: usize,
        instruction_count: usize,
    )
        requires
            old(self).valid(),
        ensures
            final(self).valid(),
            old(self).accounted() ==> final(self).accounted(),
            final(self).blocks() == old(self).blocks().insert(
                guest_address,
                (TranslatedBlock {
                    guest_address,
                    host_address,
                    code_size,
                    execution_count: 0,
                    fallthrough_target: None,
                    is_chained: false,
                    instruction_count,
                }),
            ),
            final(self).chains() == old(self).chains(),
            final(self).created() == old(self).created(),
            final(self).broken() == old(self).broken(),
    {
        self.blocks.insert(
            guest_address,
            TranslatedBlock {
                guest_address,
                host_address,
                code_size,
                execution_count: 0,
                fallthrough_target: None,
                is_chained: false,
                instruction_count,
            },
        );
    }

    /// Notes that the block at `guest_address` ran and that `next_address` ran
    /// after it. A chain that leads elsewhere is broken.
    pub fn record_execution(&mut self, guest_address: u64, next_address: u64) -> (outcome:
        AppResult<()>)
        requires
            old(self).valid(),
            old(self).blocks().contains_key(guest_address) ==> old(
                self,
            ).blocks()[guest_address].execution_count < u64::MAX,
        ensures
            final(self).valid(),
            old(self).accounted() ==> final(self).accounted(),
            outcome is Ok <==> old(self).blocks().contains_key(guest_address),
            outcome matches Err(error) ==> error.code == ReasonCode::RcUnimplInsn && *final(self)
                == *old(self),
            outcome is Ok ==> {
                let block = old(self).blocks()[guest_address];
                let strays = block.is_chained && block.fallthrough_target != Some(next_address);
                let from = if strays {
                    set![guest_address]
                } else {
                    Set::empty()
                };
                &&& final(self).blocks() == old(self).blocks().insert(
                    guest_address,
                    (TranslatedBlock {
                        execution_count: (block.execution_count + 1) as u64,
                        fallthrough_target: Some(next_address),
                        is_chained: block.is_chained && !strays,
                        ..block
                    }),
                )
                &&& final(self).chains() == unchained(old(self).chains(), from)
                &&& final(self).broken() == old(self).broken() + active_from(
                    old(self).chains(),
                    from,
                )
                &&& final(self).created() == old(self).created()
            },
    {
        let block = match self.blocks.get(&guest_address) {
            Some(block) => *block,
            None => {
                let address: String = padded_hex(guest_address, 1);
                return Err(
                    AppError::new(
                        ReasonCode::RcUnimplInsn,
                        &surrounded("block at 0x", &address, " not found"),
                    ),
                );
            },
        };
        let same_target = match block.fallthrough_target {
            Some(target) => target == next_address,
            None => false,
        };
        let strays = block.is_chained && !same_target;
        proof {
            lemma_none_from(self.chains@);
        }
        if strays {
            self.break_chain(guest_address);
        }
        self.blocks.insert(
            guest_address,
            TranslatedBlock {
                execution_count: block.execution_count + 1,
                fallthrough_target: Some(next_address),
                is_chained: block.is_chained && !strays,
                ..block
            },
        );
        assert(self.blocks() =~= old(self).blocks().insert(
            guest_address,
            self.blocks()[guest_address],
        ));
        Ok(())
    }

    /// Chains the block at `guest_address` to the block that ran after it last.
    /// That happens where both are registered and the first has run often
    /// enough; the result says whether it did.
    pub fn try_chain(&mut self, guest_address: u64) -> (chained: bool)
        requires
            old(self).valid(),
            old(self).created() < u64::MAX,
        ensures
            final(self).valid(),
            old(self).accounted() ==> final(self).accounted(),
            chained == ({
                &&& old(self).blocks().contains_key(guest_address)
                &&& old(self).blocks()[guest_address].execution_count >= CHAIN_THRESHOLD
                &&& old(self).blocks()[guest_address].fallthrough_target is Some
                &&& old(self).blocks().contains_key(
                    old(self).blocks()[guest_address].fallthrough_target->0,
                )
            }),
            !chained ==> *final(self) == *old(self),
            chained ==> {
                let block = old(self).blocks()[guest_address];
                let target = old(self).blocks()[block.fallthrough_target->0];
                &&& final(self).blocks() == old(self).blocks().insert(
                    guest_address,
                    (TranslatedBlock { is_chained: true, ..block }),
                )
                &&& final(self).chains() == old(self).chains().push(
                    (BlockChain {
                        from_address: guest_address,
                        to_address: block.fallthrough_target->0,
                        patch_offset: patch_distance(block, target) as usize,
                        is_active: true,
                    }),
                )
                &&& final(self).created() == old(self).created() + 1
                &&& final(self).broken() == old(self).broken()
            },
    {
        let block = match self.blocks.get(&guest_address) {
            Some(block) => *block,
            None => {
                return false;
            },
        };
        let target_address: u64 = match block.fallthrough_target {
            Some(address) => address,
            None => {
                return false;
            },
        };
        if !self.blocks.contains_key(&target_address) {
            return false;
        }
        if block.execution_count < CHAIN_THRESHOLD {
            return false;
        }
        let patch_offset: usize = self.compute_patch_offset(guest_address, target_address);
        let chain = BlockChain {
            from_address: guest_address,
            to_address: target_address,
            patch_offset,
            is_active: true,
        };
        self.chains.push(chain);
        self.total_chains_active += 1;
        assert(self.chains@.drop_last() =~= old(self).chains@);
        self.blocks.insert(guest_address, TranslatedBlock { is_chained: true, ..block });
        true
    }

    /// Breaks the active chains that start at `from_address`.
    pub fn break_chain(&mut self, from_address: u64)
        requires
            old(self).valid(),
        ensures
            final(self).valid(),
            old(self).accounted() ==> final(self).accounted(),
            final(self).chains() == unchained(old(self).chains(), set![from_address]),
            final(self).broken() == old(self).broken() + active_from(
                old(self).chains(),
                set![from_address],
            ),
            final(self).created() == old(self).created(),
            final(self).blocks() == (if old(self).blocks().contains_key(from_address) {
                old(self).blocks().insert(
                    from_address,
                    (TranslatedBlock {
                        is_chained: false,
                        ..old(self).blocks()[from_address]
                    }),
                )
            } else {
                old(self).blocks()
            }),
    {
        let ghost from = set![from_address];
        let ghost before = self.chains@;
        proof {
            lemma_active_left(before, from);
        }
        let count: usize = self.chains.len();
        let mut i: usize = 0;
        assert(before.take(0) =~= Seq::<BlockChain>::empty());
        while i < count
            invariant
                i <= count,
                count == before.len(),
                self.chains@.len() == count,
                from == set![from_address],
                before == old(self).chains@,
                self.blocks == old(self).blocks,
                self.total_chains_active == old(self).total_chains_active,
                forall|j: int| 0 <= j < i ==> self.chains@[j] == cut(before[j], from),
                forall|j: int| i <= j < count ==> self.chains@[j] == before[j],
                self.total_chains_broken == old(self).total_chains_broken + active_from(
                    before.take(i as int),
                    from,
                ),
                old(self).total_chains_broken + active_from(before, from) <= u64::MAX,
            decreases count - i,
        {
            let chain = self.chains[i];
            proof {
                assert(before.take(i + 1).drop_last() =~= before.take(i as int));
                lemma_active_prefix(before, i + 1, from);
            }
            if chain.from_address == from_address && chain.is_active {
                self.chains.set(i, BlockChain { is_active: false, ..chain });
                self.total_chains_broken += 1;
            }
            i += 1;
        }
        assert(before.take(count as int) =~= before);
        assert(self.chains@ =~= unchained(before, from));
        match self.blocks.get(&from_address) {
            Some(block) => {
                let block = *block;
                self.blocks.insert(from_address, TranslatedBlock { is_chained: false, ..block });
            },
            None => {},
        }
    }

    /// The block at a guest address.
    pub fn get_block(&self, guest_address: u64) -> (block: Option<&TranslatedBlock>)
        ensures
            match block {
                Some(found) => self.blocks().contains_key(guest_address)
                    && self.blocks()[guest_address] == *found,
                None => !self.blocks().contains_key(guest_address),
            },
    {
        self.blocks.get(&guest_address)
    }

    /// The number of registered blocks.
    pub fn block_count(&self) -> (count: usize)
        ensures
            count == self.blocks().len(),
    {
        self.blocks.len()
    }

    /// The number of active chains.
    pub fn active_chain_count(&self) -> (count: usize)
        ensures
            count == self.active(),
    {
        let mut count: usize = 0;
        let mut i: usize = 0;
        assert(self.chains@.take(0) =~= Seq::<BlockChain>::empty());
        while i < self.chains.len()
            invariant
                i <= self.chains@.len(),
                count <= i,
                count == active_from(self.chains@.take(i as int), Set::full()),
            decreases self.chains@.len() - i,
        {
            assert(self.chains@.take(i + 1).drop_last() =~= self.chains@.take(i as int));
            if self.chains[i].is_active {
                count += 1;
            }
            i += 1;
        }
        assert(self.chains@.take(i as int) =~= self.chains@);
        count
    }

    /// How many chains were ever made.
    pub fn total_chains_created(&self) -> (count: u64)
        ensures
            count == self.created(),
    {
        self.total_chains_active
    }

    /// How many chains were ever broken.
    pub fn total_chains_broken(&self) -> (count: u64)
        ensures
            count == self.broken(),
    {
        self.total_chains_broken
    }

    /// The blocks that have run `threshold` times or more, by ascending address.
    pub fn hot_blocks(&self, threshold: u64) -> (found: Vec<&TranslatedBlock>)
        ensures
            lists_keys(keys_of(self.blocks()), self.blocks()),
            found@.len() == hot_addresses(self.blocks(), threshold).len(),
            forall|i: int|
                0 <= i < found@.len() ==> *#[trigger] found@[i] == self.blocks()[hot_addresses(
                    self.blocks(),
                    threshold,
                )[i]],
    {
        let keys: Vec<u64> = sorted_keys(&self.blocks);
        let ghost blocks = self.blocks();
        let ghost hot = |address: u64| blocks[address].execution_count >= threshold;
        let mut found: Vec<&TranslatedBlock> = Vec::new();
        let mut i: usize = 0;
        proof {
            reveal(Seq::filter);
        }
        while i < keys.len()
            invariant
                i <= keys@.len(),
                blocks == self.blocks@,
                hot == (|address: u64| blocks[address].execution_count >= threshold),
                lists_keys(keys@, blocks),
                found@.len() == keys@.take(i as int).filter(hot).len(),
                forall|j: int|
                    0 <= j < found@.len() ==> *#[trigger] found@[j] == blocks[keys@.take(
                        i as int,
                    ).filter(hot)[j]],
            decreases keys@.len() - i,
        {
            proof {
                lemma_filter_step(keys@, i as int, hot);
                assert(keys@.contains(keys@[i as int]));
            }
            match self.blocks.get(&keys[i]) {
                Some(block) => {
                    if block.execution_count >= threshold {
                        found.push(block);
                    }
                },
                None => {},
            }
            i += 1;
        }
        assert(keys@.take(i as int) =~= keys@);
        found
    }

    /// How far the code of the block at `patch_target` starts behind the end of
    /// the code of the block at `from_address`; 0 where it does not start
    /// behind it or where one of the two is not registered.
    pub fn compute_patch_offset(&self, from_address: u64, patch_target: u64) -> (offset: usize)
        ensures
            offset == (if self.blocks().contains_key(from_address) && self.blocks().contains_key(
                patch_target,
            ) {
                patch_distance(self.blocks()[from_address], self.blocks()[patch_target]) as usize
            } else {
                0
            }),
    {
        match (self.blocks.get(&patch_target), self.blocks.get(&from_address)) {
            (Some(target), Some(from)) => {
                let end: u128 = from.host_address as u128 + from.code_size as u128;
                if end <= target.host_address as u128 {
                    (target.host_address - end as u64) as usize
                } else {
                    0
                }
            },
            _ => 0,
        }
    }

    /// Forgets all blocks and chains; the counters stay.
    pub fn invalidate_all(&mut self)
        requires
            old(self).valid(),
        ensures
            final(self).valid(),
            final(self).blocks() == Map::<u64, TranslatedBlock>::empty(),
            final(self).chains() == Seq::<BlockChain>::empty(),
            final(self).created() == old(self).created(),
            final(self).broken() == old(self).broken(),
    {
        self.blocks.clear();
        self.chains.clear();
    }

    /// Forgets the blocks at the addresses from `start` up to `end`, and breaks
    /// the chains that start at them.
    pub fn invalidate_range(&mut self, start: u64, end: u64)
        requires
            old(self).valid(),
        ensures
            final(self).valid(),
            old(self).accounted() ==> final(self).accounted(),
            final(self).blocks() == old(self).blocks().remove_keys(
                within(old(self).blocks(), start, end),
            ),
            final(self).chains() == unchained(
                old(self).chains(),
                within(old(self).blocks(), start, end),
            ),
            final(self).broken() == old(self).broken() + active_from(
                old(self).chains(),
                within(old(self).blocks(), start, end),
            ),
            final(self).created() == old(self).created(),
    {
        let keys: Vec<u64> = sorted_keys(&self.blocks);
        let ghost before = self.blocks();
        let ghost links = self.chains();
        let ghost mut done: Set<u64> = Set::empty();
        proof {
            lemma_none_from(links);
            assert(before.remove_keys(done) =~= before);
        }
        let mut i: usize = 0;
        while i < keys.len()
            invariant
                i <= keys@.len(),
                self.valid(),
                old(self).accounted() ==> self.accounted(),
                before == old(self).blocks(),
                links == old(self).chains(),
                lists_keys(keys@, before),
                forall|address: u64| #[trigger]
                    done.contains(address) <==> start <= address < end && exists|j: int|
                        0 <= j < i && keys@[j] == address,
                self.blocks() == before.remove_keys(done),
                self.chains() == unchained(links, done),
                self.broken() == old(self).broken() + active_from(links, done),
                self.created() == old(self).created(),
            decreases keys@.len() - i,
        {
            let address: u64 = keys[i];
            if start <= address && address < end {
                proof {
                    lemma_active_split(links, done, address);
                }
                self.break_chain(address);
                self.blocks.remove(&address);
                proof {
                    assert(self.blocks() =~= before.remove_keys(done.insert(address)));
                    done = done.insert(address);
                }
            }
            i += 1;
        }
        assert(done =~= within(before, start, end)) by {
            assert forall|address: u64| done.contains(address) <==> #[trigger] within(
                before,
                start,
                end,
            ).contains(address) by {
                assert(before.contains_key(address) <==> keys@.contains(address));
            }
        }
    }
}

proof fn lemma_active_prefix(chains: Seq<BlockChain>, count: int, from: Set<u64>)
    requires
        0 <= count <= chains.len(),
    ensures
        active_from(chains.take(count), from) <= active_from(chains, from),
    decreases chains.len() - count,
{
    if count < chains.len() {
        lemma_active_prefix(chains, count + 1, from);
        assert(chains.take(count + 1).drop_last() =~= chains.take(count));
    } else {
        assert(chains.take(count) =~= chains);
    }
}

/// Chains from the given blocks are cut and no others: what was cut and was
/// active is counted, and afterwards none of them is active.
pub proof fn lemma_chains_cut(chains: Seq<BlockChain>, from: Set<u64>)
    ensures
        unchained(chains, from).len() == chains.len(),
        forall|i: int|
            0 <= i < chains.len() ==> {
                let after = #[trigger] unchained(chains, from)[i];
                &&& after.from_address == chains[i].from_address
                &&& after.to_address == chains[i].to_address
                &&& after.patch_offset == chains[i].patch_offset
                &&& after.is_active <==> chains[i].is_active && !from.contains(
                    chains[i].from_address,
                )
            },
        active_from(unchained(chains, from), from) == 0,
        active_from(chains, from) <= chains.len(),
        active_from(unchained(chains, from), Set::full()) + active_from(chains, from)
            == active_from(chains, Set::full()),
    decreases chains.len(),
{
    if chains.len() > 0 {
        let front = chains.drop_last();
        lemma_chains_cut(front, from);
        assert(unchained(chains, from).drop_last() =~= unchained(front, from));
        assert(Set::<u64>::full().contains(chains.last().from_address));
    }
}

/// The bytes between the end of a block and the start of its successor, where
/// that lies behind it.
pub proof fn lemma_patch_distance(from: TranslatedBlock, to: TranslatedBlock)
    ensures
        patch_distance(from, to) >= 0,
        from.host_address + from.code_size <= to.host_address ==> from.host_address + from.code_size
            + patch_distance(from, to) == to.host_address,
        from.host_address + from.code_size > to.host_address ==> patch_distance(from, to) == 0,
{
}

/// The hot blocks are those that ran often enough, each once.
pub proof fn lemma_hot_blocks(blocks: Map<u64, TranslatedBlock>, threshold: u64, address: u64)
    requires
        lists_keys(keys_of(blocks), blocks),
    ensures
        hot_addresses(blocks, threshold).contains(address) <==> blocks.contains_key(address)
            && blocks[address].execution_count >= threshold,
{
    lemma_filtered(
        keys_of(blocks),
        |address: u64| blocks[address].execution_count >= threshold,
    );
    assert(keys_of(blocks).contains(address) <==> blocks.contains_key(address));
}

} // verus!
