use aero::jitcache::{IrBlockCache, HOT_THRESHOLD, MAX_BLOCKS};

#[test]
fn a_block_is_translated_after_fifty_entries() {
    let mut c: IrBlockCache<&str> = IrBlockCache::new();
    assert!(c.is_empty());
    assert_eq!(c.hot_threshold(), HOT_THRESHOLD);
    for _ in 1..HOT_THRESHOLD {
        assert!(!c.record_hit(0x1000));
    }
    assert!(c.record_hit(0x1000));
    assert!(c.compile(0x1000, Some(("loop", 4))));
    assert_eq!(c.get(0x1000), Some(&"loop"));
    assert_eq!(c.guest_instruction_count(0x1000), Some(4));
    assert_eq!(c.len(), 1);
    // Once cached, further entries ask for nothing.
    assert!(!c.record_hit(0x1000));
    c.invalidate(0x1000);
    assert_eq!(c.get(0x1000), None);
    assert_eq!(c.guest_instruction_count(0x1000), None);
    // Its entry count survived, so the next entry asks again.
    assert!(c.record_hit(0x1000));
}

#[test]
fn a_refused_block_is_not_tried_again() {
    let mut c: IrBlockCache<u32> = IrBlockCache::default();
    for _ in 0..HOT_THRESHOLD {
        c.record_hit(0x2000);
    }
    assert!(!c.compile(0x2000, None));
    assert!(c.is_empty());
    for _ in 0..2 * HOT_THRESHOLD {
        assert!(!c.record_hit(0x2000));
    }
    // Clearing forgets refusals too.
    c.clear();
    for _ in 1..HOT_THRESHOLD {
        assert!(!c.record_hit(0x2000));
    }
    assert!(c.record_hit(0x2000));
}

#[test]
fn a_full_cache_drops_one_block_to_make_room() {
    let mut c: IrBlockCache<u64> = IrBlockCache::new();
    for rip in 0..MAX_BLOCKS as u64 {
        assert!(c.compile(rip, Some((rip, 1))));
    }
    assert_eq!(c.len(), MAX_BLOCKS);
    assert!(c.compile(0xffff_0000, Some((7, 2))));
    assert_eq!(c.len(), MAX_BLOCKS);
    assert_eq!(c.get(0xffff_0000), Some(&7));
    let missing = (0..MAX_BLOCKS as u64).filter(|r| c.get(*r).is_none()).count();
    assert_eq!(missing, 1);
}

#[test]
fn run_counters_saturate() {
    let mut c: IrBlockCache<u8> = IrBlockCache::new();
    c.record_execution(5);
    c.record_chain_execution(3, 10);
    assert_eq!(c.executed_blocks(), 4);
    assert_eq!(c.executed_guest_instructions(), 15);
    c.record_chain_execution(u64::MAX, u64::MAX);
    assert_eq!(c.executed_blocks(), u64::MAX);
    assert_eq!(c.executed_guest_instructions(), u64::MAX);
    c.clear();
    assert_eq!(c.executed_blocks(), u64::MAX);
}

use aero::jitcache::{chain_account, ChainRun, MAX_CHAIN_BLOCKS};

#[test]
fn chains_run_cached_blocks_within_their_budget() {
    let mut c: IrBlockCache<&str> = IrBlockCache::new();
    c.compile(0x10, Some(("a", 4)));
    c.compile(0x20, Some(("b", 6)));
    assert!(c.chain_can_start(0x10, 4));
    assert!(!c.chain_can_start(0x10, 3));
    assert!(!c.chain_can_start(0x30, 100));
    let run = ChainRun { guest_insts: 0, blocks: 0 };
    assert_eq!(c.chain_next(run, 0x10, 10), Some((&"a", 4)));
    let run = chain_account(run, 4);
    assert_eq!(run, ChainRun { guest_insts: 4, blocks: 1 });
    assert_eq!(c.chain_next(run, 0x20, 10), Some((&"b", 6)));
    // One instruction over the budget ends the chain.
    assert_eq!(c.chain_next(run, 0x20, 9), None);
    assert_eq!(c.chain_next(run, 0x30, 100), None);
    let long = ChainRun { guest_insts: 0, blocks: MAX_CHAIN_BLOCKS };
    assert_eq!(c.chain_next(long, 0x10, 100), None);
}
