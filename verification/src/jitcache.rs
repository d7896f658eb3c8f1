//! The cache of translated guest blocks for the machine's execute loop.
//!
//! Hot guest blocks are translated once and cached by entry address, so a loop body is
//! decoded once rather than on every iteration. A block is translated only after it has been
//! entered `hot_threshold` times, because translating a block that runs once costs more than
//! interpreting it; a block whose translation was refused is remembered and not tried again.
//! The cache holds blocks of any type `B`: translating and running them is the caller's part.

use vstd::prelude::*;
use std::collections::{HashMap, HashSet};

verus! {

broadcast use vstd::std_specs::hash::group_hash_axioms;

/// The cache as values.
#[verifier::ext_equal]
pub struct CacheView<B> {
    /// Cached blocks by entry address.
    pub blocks: Map<u64, B>,
    /// Guest instructions each cached block stands for.
    pub counts: Map<u64, u64>,
    /// Entries seen per address, for addresses not yet cached.
    pub hotness: Map<u64, u32>,
    /// Addresses whose translation was refused.
    pub rejected: Set<u64>,
    pub executed_blocks: u64,
    pub executed_guest_instructions: u64,
}

/// The most blocks cached at once.
pub const MAX_BLOCKS: usize = 4096;

/// Entries after which a block is translated.
pub const HOT_THRESHOLD: u32 = 50;

/// Whether dropping `evicted` before storing a translation is what the cache `v` does: a
/// full cache drops one of its blocks, any other drops none.
pub open spec fn eviction_allowed<B>(v: CacheView<B>, evicted: Option<u64>) -> bool {
    &&& (evicted is Some <==> v.blocks.len() >= MAX_BLOCKS)
    &&& (evicted matches Some(k) ==> v.blocks.contains_key(k))
}

/// The cache `v` after dropping `evicted` (with its count and entry count), then storing the
/// outcome `result` of translating the block at `rip`: the block and its count, or the
/// refusal (remembered, with the entry count dropped).
pub open spec fn after_compile<B>(v: CacheView<B>, evicted: Option<u64>, rip: u64, result: Option<(B, u64)>) -> CacheView<B> {
    let w = match evicted {
        Some(k) => CacheView {
            blocks: v.blocks.remove(k),
            counts: v.counts.remove(k),
            hotness: v.hotness.remove(k),
            ..v
        },
        None => v,
    };
    match result {
        Some((b, n)) => CacheView { blocks: w.blocks.insert(rip, b), counts: w.counts.insert(rip, n), ..w },
        None => CacheView { hotness: w.hotness.remove(rip), rejected: w.rejected.insert(rip), ..w },
    }
}

/// A cache of translated blocks.
pub struct IrBlockCache<B> {
    blocks: HashMap<u64, B>,
    guest_instruction_counts: HashMap<u64, u64>,
    hotness: HashMap<u64, u32>,
    rejected: HashSet<u64>,
    hot_threshold: u32,
    max_blocks: usize,
    executed_blocks: u64,
    executed_guest_instructions: u64,
}

impl<B> View for IrBlockCache<B> {
    type V = CacheView<B>;

    closed spec fn view(&self) -> CacheView<B> {
        CacheView {
            blocks: self.blocks@,
            counts: self.guest_instruction_counts@,
            hotness: self.hotness@,
            rejected: self.rejected@,
            executed_blocks: self.executed_blocks,
            executed_guest_instructions: self.executed_guest_instructions,
        }
    }
}

impl<B> IrBlockCache<B> {
    /// Every cached block has an instruction count and nothing else does, and the cache holds
    /// at most `MAX_BLOCKS` blocks.
    pub closed spec fn wf(&self) -> bool {
        &&& self.guest_instruction_counts@.dom() == self.blocks@.dom()
        &&& self.blocks@.len() <= MAX_BLOCKS
        &&& self.blocks@.dom().finite()
        &&& self.hot_threshold == HOT_THRESHOLD
        &&& self.max_blocks == MAX_BLOCKS
    }

    /// An empty cache.
    pub fn new() -> (c: Self)
        ensures
            c.wf(),
            c@.blocks == Map::<u64, B>::empty(),
            c@.counts == Map::<u64, u64>::empty(),
            c@.hotness == Map::<u64, u32>::empty(),
            c@.rejected == Set::<u64>::empty(),
            c@.executed_blocks == 0,
            c@.executed_guest_instructions == 0,
    {
        IrBlockCache {
            blocks: HashMap::new(),
            guest_instruction_counts: HashMap::new(),
            hotness: HashMap::new(),
            rejected: HashSet::new(),
            hot_threshold: HOT_THRESHOLD,
            max_blocks: MAX_BLOCKS,
            executed_blocks: 0,
            executed_guest_instructions: 0,
        }
    }

    /// Entries after which a block is translated.
    pub fn hot_threshold(&self) -> (t: u32)
        requires
            self.wf(),
        ensures
            t == HOT_THRESHOLD,
    {
        self.hot_threshold
    }

    /// Record an entry at `rip`; whether its block should now be translated: not refused
    /// before, entered `HOT_THRESHOLD` times, and not cached.
    pub fn record_hit(&mut self, rip: u64) -> (r: bool)
        requires
            old(self).wf(),
            !old(self)@.rejected.contains(rip) && old(self)@.hotness.contains_key(rip) ==> old(
                self,
            )@.hotness[rip] < u32::MAX,
        ensures
            final(self).wf(),
            final(self)@.blocks == old(self)@.blocks,
            final(self)@.counts == old(self)@.counts,
            final(self)@.rejected == old(self)@.rejected,
            final(self)@.executed_blocks == old(self)@.executed_blocks,
            final(self)@.executed_guest_instructions == old(self)@.executed_guest_instructions,
            if old(self)@.rejected.contains(rip) {
                !r && final(self)@.hotness == old(self)@.hotness
            } else {
                let n = if old(self)@.hotness.contains_key(rip) {
                    old(self)@.hotness[rip] + 1
                } else {
                    1
                };
                &&& final(self)@.hotness == old(self)@.hotness.insert(rip, n as u32)
                &&& r == (n >= HOT_THRESHOLD && !old(self)@.blocks.contains_key(rip))
            },
    {
        if self.rejected.contains(&rip) {
            return false;
        }
        let count: u32 = match self.hotness.get(&rip) {
            Some(c) => *c + 1,
            None => 1,
        };
        self.hotness.insert(rip, count);
        count >= self.hot_threshold && !self.blocks.contains_key(&rip)
    }

    /// The cached block at `rip`.
    pub fn get(&self, rip: u64) -> (r: Option<&B>)
        ensures
            match r {
                Some(b) => self@.blocks.contains_key(rip) && *b == self@.blocks[rip],
                None => !self@.blocks.contains_key(rip),
            },
    {
        self.blocks.get(&rip)
    }

    /// Store the outcome of translating the block at `rip`: a block and the guest
    /// instructions it stands for, or `None` when the translation was refused (the address is
    /// then remembered as refused and its entry count dropped). A full cache first drops one
    /// of its blocks, with its count and entry count. Whether a block was stored.
    pub fn compile(&mut self, rip: u64, result: Option<(B, u64)>) -> (r: bool)
        requires
            old(self).wf(),
        ensures
            final(self).wf(),
            r == result is Some,
            exists|evicted: Option<u64>|
                #[trigger] eviction_allowed(old(self)@, evicted) && final(self)@ == after_compile(
                    old(self)@,
                    evicted,
                    rip,
                    result,
                ),
    {
        let ghost old_view = self@;
        let mut evicted: Option<u64> = None;
        if self.blocks.len() >= self.max_blocks {
            let ghost dom = self.blocks@.dom();
            for k in it: self.blocks.keys()
                invariant
                    dom == self.blocks@.dom(),
                    it.seq().unref().to_set() == dom,
                    it.seq().len() == dom.len(),
                    evicted is None <==> it.index() == 0,
                    evicted matches Some(v) ==> dom.contains(v),
            {
                if evicted.is_none() {
                    evicted = Some(*k);
                }
            }
        }
        match evicted {
            Some(k) => {
                self.blocks.remove(&k);
                self.guest_instruction_counts.remove(&k);
                self.hotness.remove(&k);
            },
            None => {},
        }
        let ghost res = result;
        let r = match result {
            Some((ir, n)) => {
                self.blocks.insert(rip, ir);
                self.guest_instruction_counts.insert(rip, n);
                true
            },
            None => {
                self.rejected.insert(rip);
                self.hotness.remove(&rip);
                false
            },
        };
        assert(self@ =~= after_compile(old_view, evicted, rip, res));
        assert(eviction_allowed(old_view, evicted));
        r
    }

    /// The guest instructions the cached block at `rip` stands for.
    pub fn guest_instruction_count(&self, rip: u64) -> (r: Option<u64>)
        ensures
            match r {
                Some(n) => self@.counts.contains_key(rip) && n == self@.counts[rip],
                None => !self@.counts.contains_key(rip),
            },
    {
        match self.guest_instruction_counts.get(&rip) {
            Some(n) => Some(*n),
            None => None,
        }
    }

    /// Count one cached block run for `guest_instruction_count` guest instructions.
    pub fn record_execution(&mut self, guest_instruction_count: u64)
        requires
            old(self).wf(),
        ensures
            final(self).wf(),
            final(self)@ == (CacheView {
                executed_blocks: old(self)@.executed_blocks.saturating_add(1),
                executed_guest_instructions: old(self)@.executed_guest_instructions.saturating_add(
                    guest_instruction_count,
                ),
                ..old(self)@
            }),
    {
        self.record_chain_execution(1, guest_instruction_count);
    }

    /// Count a chain of `blocks` cached blocks run for `guest_instruction_count` guest
    /// instructions (both counters saturate).
    pub fn record_chain_execution(&mut self, blocks: u64, guest_instruction_count: u64)
        requires
            old(self).wf(),
        ensures
            final(self).wf(),
            final(self)@ == (CacheView {
                executed_blocks: old(self)@.executed_blocks.saturating_add(blocks),
                executed_guest_instructions: old(self)@.executed_guest_instructions.saturating_add(
                    guest_instruction_count,
                ),
                ..old(self)@
            }),
    {
        self.executed_blocks = self.executed_blocks.saturating_add(blocks);
        self.executed_guest_instructions = self.executed_guest_instructions.saturating_add(
            guest_instruction_count,
        );
    }

    /// Cached blocks run so far.
    pub fn executed_blocks(&self) -> (n: u64)
        ensures
            n == self@.executed_blocks,
    {
        self.executed_blocks
    }

    /// Guest instructions run from cached blocks so far.
    pub fn executed_guest_instructions(&self) -> (n: u64)
        ensures
            n == self@.executed_guest_instructions,
    {
        self.executed_guest_instructions
    }

    /// Drop the cached block at `rip` (for instance after the guest wrote its code).
    pub fn invalidate(&mut self, rip: u64)
        requires
            old(self).wf(),
        ensures
            final(self).wf(),
            final(self)@ == (CacheView {
                blocks: old(self)@.blocks.remove(rip),
                counts: old(self)@.counts.remove(rip),
                ..old(self)@
            }),
    {
        self.blocks.remove(&rip);
        self.guest_instruction_counts.remove(&rip);
    }

    /// Drop every block, entry count and refusal; the run counters stay.
    pub fn clear(&mut self)
        requires
            old(self).wf(),
        ensures
            final(self).wf(),
            final(self)@ == (CacheView {
                blocks: Map::<u64, B>::empty(),
                counts: Map::<u64, u64>::empty(),
                hotness: Map::<u64, u32>::empty(),
                rejected: Set::<u64>::empty(),
                ..old(self)@
            }),
    {
        self.blocks.clear();
        self.guest_instruction_counts.clear();
        self.hotness.clear();
        self.rejected.clear();
    }

    /// How many blocks are cached.
    pub fn len(&self) -> (n: usize)
        requires
            self.wf(),
        ensures
            n == self@.blocks.len(),
    {
        self.blocks.len()
    }

    /// Whether no block is cached.
    pub fn is_empty(&self) -> (r: bool)
        requires
            self.wf(),
        ensures
            r == (self@.blocks.len() == 0),
    {
        self.blocks.is_empty()
    }
}

impl<B> Default for IrBlockCache<B> {
    /// An empty cache.
    fn default() -> (c: Self)
        ensures
            c.wf(),
            c@.blocks == Map::<u64, B>::empty(),
            c@.counts == Map::<u64, u64>::empty(),
            c@.hotness == Map::<u64, u32>::empty(),
            c@.rejected == Set::<u64>::empty(),
            c@.executed_blocks == 0,
            c@.executed_guest_instructions == 0,
    {
        Self::new()
    }
}

/// The most cached blocks run in one chain.
pub const MAX_CHAIN_BLOCKS: u64 = 4096;

/// What a chain of cached blocks has run so far.
#[derive(Debug, Clone, Copy, PartialEq, Eq, Structural)]
pub struct ChainRun {
    pub guest_insts: u64,
    pub blocks: u64,
}

impl<B> IrBlockCache<B> {
    /// Whether a chain may start at `rip`: its block is cached and stands for no more than
    /// `max_guest_insts` guest instructions.
    pub fn chain_can_start(&self, rip: u64, max_guest_insts: u64) -> (r: bool)
        ensures
            r == (self@.blocks.contains_key(rip) && self@.counts.contains_key(rip) && self@.counts[rip]
                <= max_guest_insts),
    {
        match self.guest_instruction_count(rip) {
            None => false,
            Some(n) => self.get(rip).is_some() && n <= max_guest_insts,
        }
    }

    /// The next block of a chain that has done `run`, at `rip`: the cached block and its
    /// instruction count, unless it is not cached, would take the chain past
    /// `max_guest_insts` guest instructions, or the chain already ran `MAX_CHAIN_BLOCKS`.
    pub fn chain_next(&self, run: ChainRun, rip: u64, max_guest_insts: u64) -> (r: Option<(&B, u64)>)
        ensures
            match r {
                Some((b, n)) => {
                    &&& self@.blocks.contains_key(rip)
                    &&& *b == self@.blocks[rip]
                    &&& self@.counts.contains_key(rip)
                    &&& n == self@.counts[rip]
                    &&& run.guest_insts.saturating_add(n) <= max_guest_insts
                    &&& run.blocks < MAX_CHAIN_BLOCKS
                },
                None => !self@.blocks.contains_key(rip) || !self@.counts.contains_key(rip)
                    || run.guest_insts.saturating_add(self@.counts[rip]) > max_guest_insts || run.blocks
                    >= MAX_CHAIN_BLOCKS,
            },
    {
        let b = match self.get(rip) {
            Some(b) => b,
            None => return None,
        };
        let n = match self.guest_instruction_count(rip) {
            Some(n) => n,
            None => return None,
        };
        if run.guest_insts.saturating_add(n) > max_guest_insts || run.blocks >= MAX_CHAIN_BLOCKS {
            return None;
        }
        Some((b, n))
    }
}

/// `run` after one more block of `count` guest instructions.
pub fn chain_account(run: ChainRun, count: u64) -> (r: ChainRun)
    requires
        run.guest_insts + count <= u64::MAX,
        run.blocks < MAX_CHAIN_BLOCKS,
    ensures
        r == (ChainRun { guest_insts: (run.guest_insts + count) as u64, blocks: (run.blocks + 1) as u64 }),
{
    ChainRun { guest_insts: run.guest_insts + count, blocks: run.blocks + 1 }
}

} // verus!
