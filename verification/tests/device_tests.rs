use lib::device::clint::{Clint, SCRATCH_WORDS};
use lib::device::plic::{enable_mask, Plic};
use lib::device::uart::{Uart, FCR, IER, LCR};
use lib::device::virtio::{
    device_compatible, features_accepted, negotiate_features, queue_available, BlkError, Block,
    SplitVirtQueue, VirtBlkReq, VirtQueueDesc, DESC_NEXT, DESC_WRITE, RING_SIZE,
};
use lib::param::NHART;

const PLIC: u64 = 0x0c00_0000;

#[test]
fn plic_register_addresses() {
    let p = Plic::new(PLIC);
    assert_eq!(p.priority_addr(10), PLIC + 40);
    assert_eq!(p.threshold_addr(0), PLIC + 0x20_1000);
    assert_eq!(p.threshold_addr(1), PLIC + 0x20_3000);
    assert_eq!(p.enable_addr(1), PLIC + 0x2180);
    assert_eq!(p.claim_addr(1), PLIC + 0x20_3004);
}

#[test]
fn plic_enables_uart_and_virtio() {
    assert_eq!(enable_mask(), (1 << 10) | (1 << 1));
}

#[test]
fn uart_init_sequence_sets_divisor_fifo_and_interrupts() {
    let u = Uart::new(0x1000_0000);
    let b = 0x1000_0000u64;
    assert_eq!(
        u.init_sequence(),
        vec![
            (b + IER, 0),
            (b + LCR, 0x80),
            (b, 3),
            (b + 1, 0),
            (b + LCR, 3),
            (b + FCR, 7),
            (b + IER, 3),
        ]
    );
}

#[test]
fn uart_get_reads_only_when_data_is_ready() {
    let u = Uart::new(0x1000_0000);
    assert_eq!(u.get(0x61, b'a'), Some(b'a'));
    assert_eq!(u.get(0x60, b'a'), None);
}

#[test]
fn clint_scratch_and_timer_addresses() {
    let base = 0x200_0000u64;
    let mut c = Clint::new(base);
    assert_eq!(c.scratchpad, vec![0u64; NHART * SCRATCH_WORDS]);
    c.init(1, 10_000_000);
    assert_eq!(c.scratchpad[SCRATCH_WORDS + 3], base + 0x4008);
    assert_eq!(c.scratchpad[SCRATCH_WORDS + 4], 10_000_000);
    assert_eq!(c.scratchpad[3], 0);
    assert_eq!(c.mtimecmp_addr(1), base + 0x4008);
    assert_eq!(c.mtime_addr(), base + 0xBFF8);
}

#[test]
fn virtio_identification_and_features() {
    assert!(device_compatible(0x7472_6976, 2, 2, 0x554d_4551));
    assert!(!device_compatible(0x7472_6976, 1, 2, 0x554d_4551));
    assert!(!device_compatible(0x7472_6976, 2, 1, 0x554d_4551));
    assert_eq!(negotiate_features(0xffff_ffff), 0xC7FF_E75F);
    assert_eq!(negotiate_features(0x20), 0);
    assert_eq!(negotiate_features(0x1), 0x1);
    assert!(features_accepted(8 | 4));
    assert!(!features_accepted(3));
    assert!(!queue_available(0));
    assert!(!queue_available(16));
    assert!(queue_available(RING_SIZE as u32));
    assert!(queue_available(1024));
}

#[test]
fn block_accepts_whole_sectors_up_to_a_page() {
    assert_eq!(Block::new(0x1000, 512, 1024), Ok(Block { data: 0x1000, len: 512, offset: 1024 }));
    assert_eq!(Block::new(0x1000, 4096, 0).map(|b| b.len), Ok(4096));
    assert!(Block::new(0x1000, 100, 0).is_err());
    assert!(Block::new(0x1000, 8192, 0).is_err());
}

#[test]
fn alloc_desc_takes_the_first_free_descriptor() {
    let mut q = SplitVirtQueue::new();
    assert_eq!(q.alloc_desc(), Some(0));
    assert_eq!(q.alloc_desc(), Some(1));
    q.free_descs(0);
    assert_eq!(q.alloc_desc(), Some(0));
    for k in 2..RING_SIZE {
        assert_eq!(q.alloc_desc(), Some(k));
    }
    assert_eq!(q.alloc_desc(), None);
}

#[test]
fn blk_request_builds_a_three_descriptor_chain() {
    let mut q = SplitVirtQueue::new();
    let b = Block::new(0x9000, 1024, 4096).unwrap();
    let h = q.blk_request(false, 0x5000, 0x6000, &b).unwrap();
    assert_eq!(h, 0);
    assert_eq!(q.reqs[0], VirtBlkReq { rtype: 0, reserved: 0, sector: 8 });
    assert_eq!(q.track[0], 0x5000);
    assert_eq!(q.desc[0], VirtQueueDesc { addr: 0x6000, len: 16, flags: DESC_NEXT, next: 1 });
    assert_eq!(
        q.desc[1],
        VirtQueueDesc { addr: 0x9000, len: 1024, flags: DESC_WRITE | DESC_NEXT, next: 2 }
    );
    assert_eq!(q.desc[2], VirtQueueDesc { addr: 0x5000, len: 1, flags: DESC_WRITE, next: 0 });
    assert_eq!(q.avail_ring[0], 0);
    assert_eq!(q.avail_idx, 1);
    // A write lets the device read the data.
    let h2 = q.blk_request(true, 0x5001, 0x6000, &b).unwrap();
    assert_eq!(h2, 3);
    assert_eq!(q.reqs[3].rtype, 1);
    assert_eq!(q.desc[3].addr, 0x6000 + 16 * 3);
    assert_eq!(q.desc[4].flags, DESC_NEXT);
    assert_eq!(q.avail_ring[1], 3);
    assert_eq!(q.avail_idx, 2);
}

#[test]
fn blk_request_refuses_partial_sectors() {
    let mut q = SplitVirtQueue::new();
    let b = Block { data: 0x9000, len: 100, offset: 0 };
    assert_eq!(q.blk_request(false, 0x5000, 0x6000, &b), Err(BlkError::BadLength));
    assert_eq!(q.avail_idx, 0);
    assert!(q.free.iter().all(|f| *f == 1));
}

#[test]
fn blk_request_reports_a_full_table() {
    let mut q = SplitVirtQueue::new();
    let b = Block::new(0x9000, 512, 0).unwrap();
    for _ in 0..RING_SIZE / 3 {
        assert!(q.blk_request(false, 0x5000, 0x6000, &b).is_ok());
    }
    assert_eq!(q.blk_request(false, 0x5000, 0x6000, &b), Err(BlkError::DescTableFull));
}

#[test]
fn complete_next_frees_the_finished_chain() {
    let mut q = SplitVirtQueue::new();
    assert_eq!(q.complete_next(), None);
    let b = Block::new(0x9000, 512, 0).unwrap();
    let h = q.blk_request(false, 0x5000, 0x6000, &b).unwrap();
    // The device reports the chain as used.
    q.used_ring[0] = (h as u32, 512);
    q.used_idx = 1;
    assert_eq!(q.complete_next(), Some((h, 0x5000)));
    assert_eq!(q.last_seen_used, 1);
    assert_eq!(&q.free[0..3], &[1, 1, 1]);
    assert_eq!(q.desc[0], VirtQueueDesc { addr: 0, len: 0, flags: 0, next: 0 });
    assert_eq!(q.complete_next(), None);
}

#[test]
fn blk_request_takes_the_lowest_free_descriptors() {
    let mut q = SplitVirtQueue::new();
    let b = Block::new(0x9000, 512, 0).unwrap();
    let h = q.blk_request(false, 0x5000, 0x6000, &b).unwrap();
    let _h2 = q.blk_request(false, 0x5000, 0x6000, &b).unwrap();
    // The first chain gives back descriptors 0, 1 and 2; the next request
    // takes them again in order.
    q.free_descs(h);
    let h3 = q.blk_request(true, 0x5002, 0x6000, &b).unwrap();
    assert_eq!(h3, 0);
    assert_eq!(q.desc[0].next, 1);
    assert_eq!(q.desc[1].next, 2);
}

#[test]
fn blk_request_refuses_when_two_descriptors_are_free() {
    let mut q = SplitVirtQueue::new();
    for _ in 0..RING_SIZE - 2 {
        assert!(q.alloc_desc().is_some());
    }
    let b = Block::new(0x9000, 512, 0).unwrap();
    assert_eq!(q.blk_request(false, 0x5000, 0x6000, &b), Err(BlkError::DescTableFull));
}

#[test]
fn free_descs_leaves_other_chains_alone() {
    let mut q = SplitVirtQueue::new();
    let b = Block::new(0x9000, 512, 0).unwrap();
    let h = q.blk_request(false, 0x5000, 0x6000, &b).unwrap();
    let h2 = q.blk_request(false, 0x5000, 0x6000, &b).unwrap();
    let kept = q.desc[h2];
    q.free_descs(h);
    assert_eq!(q.desc[h2], kept);
    assert_eq!(&q.free[3..6], &[0, 0, 0]);
    assert_eq!(&q.free[0..3], &[1, 1, 1]);
}
