//! Virtio block device over MMIO: the checks and feature negotiation of
//! device set up, and the split virtqueue that carries block requests.
//! Register accesses and memory barriers are the caller's.
use vstd::prelude::*;

verus! {

/// Descriptors in the queue (a power of two).
pub const RING_SIZE: usize = 32;

/// Device status bits.
pub const STATUS_ACK: u32 = 1;
pub const STATUS_DRIVER: u32 = 2;
pub const STATUS_DRIVER_OK: u32 = 4;
pub const STATUS_FEATURES_OK: u32 = 8;

/// Descriptor flags.
pub const DESC_NEXT: u16 = 1;
pub const DESC_WRITE: u16 = 2;

/// Size of a block request header in memory.
pub const BLK_REQ_SIZE: u64 = 16;

/// Why a block device operation was refused.
#[derive(Copy, Clone, Debug, PartialEq, Eq, Structural)]
pub enum BlkError {
    BadLength,
    DescTableFull,
}

/// The device identifies as a version 2 virtio block device from qemu.
pub fn device_compatible(magic: u32, ver: u32, dev_id: u32, ven_id: u32) -> (r: bool)
    ensures
        r == (magic == 0x74726976 && ver == 2 && dev_id == 2 && ven_id == 0x554d4551),
{
    !(magic != 0x74726976 || ver != 0x2 || dev_id != 0x2 || ven_id != 0x554d4551)
}

/// Features the driver does not take: read only, SCSI, config write-back,
/// multiqueue, any layout, event index and indirect descriptors.
pub open spec fn refused_features() -> u32 {
    (1u32 << 5u32) | (1u32 << 7u32) | (1u32 << 11u32) | (1u32 << 12u32) | (1u32 << 27u32) | (1u32
        << 29u32) | (1u32 << 28u32)
}

/// The features to accept out of those the device offers.
pub fn negotiate_features(device_features: u32) -> (f: u32)
    ensures
        f == device_features & !refused_features(),
{
    let mut features = device_features;
    features = features & !(1u32 << 5u32);
    features = features & !(1u32 << 7u32);
    features = features & !(1u32 << 11u32);
    features = features & !(1u32 << 12u32);
    features = features & !(1u32 << 27u32);
    features = features & !(1u32 << 29u32);
    features = features & !(1u32 << 28u32);
    proof {
        let d = device_features;
        assert(d & !(1u32 << 5u32) & !(1u32 << 7u32) & !(1u32 << 11u32) & !(1u32 << 12u32) & !(1u32
            << 27u32) & !(1u32 << 29u32) & !(1u32 << 28u32) == d & !((1u32 << 5u32) | (1u32 << 7u32)
            | (1u32 << 11u32) | (1u32 << 12u32) | (1u32 << 27u32) | (1u32 << 29u32) | (1u32
            << 28u32))) by (bit_vector);
    }
    features
}

/// The device took the features: it kept `FEATURES_OK` set.
pub fn features_accepted(status: u32) -> (r: bool)
    ensures
        r == (status & STATUS_FEATURES_OK != 0),
{
    status & STATUS_FEATURES_OK != 0
}

/// The queue can be used: the device offers one of at least `RING_SIZE`
/// descriptors.
pub fn queue_available(vq_max: u32) -> (r: bool)
    ensures
        r == (vq_max != 0 && vq_max >= RING_SIZE),
{
    !(vq_max == 0 || (vq_max as usize) < RING_SIZE)
}

/// A buffer of `len` bytes at `data` for the bytes at device offset
/// `offset`.
#[derive(Copy, Clone, Debug, PartialEq, Eq, Structural)]
pub struct Block {
    pub data: u64,
    pub len: u32,
    pub offset: u64,
}

impl Block {
    /// A block of whole 512 byte sectors, at most 4096 bytes.
    pub fn new(data: u64, len: u32, offset: u64) -> (r: Result<Self, ()>)
        ensures
            match r {
                Ok(b) => len % 512 == 0 && len <= 4096 && b == (Block { data, len, offset }),
                Err(_) => !(len % 512 == 0 && len <= 4096),
            },
    {
        if len % 512 == 0 && len <= 4096 {
            Ok(Block { data, len, offset })
        } else {
            Err(())
        }
    }
}

/// A descriptor: a buffer, its length, its flags and the next descriptor of
/// its chain.
#[derive(Copy, Clone, Debug, PartialEq, Eq, Structural)]
pub struct VirtQueueDesc {
    pub addr: u64,
    pub len: u32,
    pub flags: u16,
    pub next: u16,
}

/// A block request header.
#[derive(Copy, Clone, Debug, PartialEq, Eq, Structural)]
pub struct VirtBlkReq {
    pub rtype: u32,
    pub reserved: u32,
    pub sector: u64,
}

/// Descriptors that are not on `whole` are as in `d0` and `f0`.
pub open spec fn kept_off_chain(
    whole: Seq<int>,
    d0: Seq<VirtQueueDesc>,
    f0: Seq<u8>,
    d: Seq<VirtQueueDesc>,
    f: Seq<u8>,
) -> bool {
    forall|k: int|
        0 <= k < RING_SIZE && !whole.contains(k) ==> #[trigger] d[k] == d0[k] && f[k] == f0[k]
}

/// A free descriptor: all fields zero.
pub open spec fn empty_desc() -> VirtQueueDesc {
    VirtQueueDesc { addr: 0, len: 0, flags: 0, next: 0 }
}

/// A split virtqueue: descriptors, which are free, the request header and
/// status address of each chain head, the available ring the driver fills
/// and the used ring the device fills.
pub struct SplitVirtQueue {
    pub last_seen_used: u16,
    pub track: Vec<u64>,
    pub free: Vec<u8>,
    pub reqs: Vec<VirtBlkReq>,
    pub desc: Vec<VirtQueueDesc>,
    pub avail_idx: u16,
    pub avail_ring: Vec<u16>,
    pub used_idx: u16,
    pub used_ring: Vec<(u32, u32)>,
}

impl SplitVirtQueue {
    /// Every table has `RING_SIZE` entries and every link stays inside.
    pub open spec fn wf(&self) -> bool {
        &&& self.track@.len() == RING_SIZE
        &&& self.free@.len() == RING_SIZE
        &&& self.reqs@.len() == RING_SIZE
        &&& self.desc@.len() == RING_SIZE
        &&& self.avail_ring@.len() == RING_SIZE
        &&& self.used_ring@.len() == RING_SIZE
        &&& forall|i: int| 0 <= i < RING_SIZE ==> (#[trigger] self.desc@[i]).next < RING_SIZE
        &&& forall|i: int| 0 <= i < RING_SIZE ==> (#[trigger] self.used_ring@[i]).0 < RING_SIZE
    }

    /// All descriptors free, rings empty.
    pub fn new() -> (q: Self)
        ensures
            q.wf(),
            forall|i: int| 0 <= i < RING_SIZE ==> #[trigger] q.free@[i] == 1,
            q.avail_idx == 0,
            q.used_idx == 0,
            q.last_seen_used == 0,
    {
        let mut track: Vec<u64> = Vec::new();
        let mut free: Vec<u8> = Vec::new();
        let mut reqs: Vec<VirtBlkReq> = Vec::new();
        let mut desc: Vec<VirtQueueDesc> = Vec::new();
        let mut avail_ring: Vec<u16> = Vec::new();
        let mut used_ring: Vec<(u32, u32)> = Vec::new();
        let mut i: usize = 0;
        while i < RING_SIZE
            invariant
                i <= RING_SIZE,
                track@.len() == i,
                free@.len() == i,
                reqs@.len() == i,
                desc@.len() == i,
                avail_ring@.len() == i,
                used_ring@.len() == i,
                forall|k: int| 0 <= k < i ==> #[trigger] free@[k] == 1,
                forall|k: int| 0 <= k < i ==> (#[trigger] desc@[k]).next == 0,
                forall|k: int| 0 <= k < i ==> (#[trigger] used_ring@[k]).0 == 0,
            decreases RING_SIZE - i,
        {
            track.push(0);
            free.push(1);
            reqs.push(VirtBlkReq { rtype: 0, reserved: 0, sector: 0 });
            desc.push(VirtQueueDesc { addr: 0, len: 0, flags: 0, next: 0 });
            avail_ring.push(0);
            used_ring.push((0, 0));
            i = i + 1;
        }
        SplitVirtQueue {
            last_seen_used: 0,
            track,
            free,
            reqs,
            desc,
            avail_idx: 0,
            avail_ring,
            used_idx: 0,
            used_ring,
        }
    }

    /// Take the first free descriptor.
    pub fn alloc_desc(&mut self) -> (r: Option<usize>)
        requires
            old(self).wf(),
        ensures
            final(self).wf(),
            final(self).desc@ == old(self).desc@,
            final(self).reqs@ == old(self).reqs@,
            final(self).track@ == old(self).track@,
            final(self).avail_idx == old(self).avail_idx,
            final(self).avail_ring@ == old(self).avail_ring@,
            final(self).used_idx == old(self).used_idx,
            final(self).used_ring@ == old(self).used_ring@,
            final(self).last_seen_used == old(self).last_seen_used,
            match r {
                Some(i) => {
                    &&& i < RING_SIZE
                    &&& old(self).free@[i as int] == 1
                    &&& forall|j: int| 0 <= j < i ==> old(self).free@[j] != 1
                    &&& final(self).free@ == old(self).free@.update(i as int, 0)
                },
                None => {
                    &&& forall|j: int| 0 <= j < RING_SIZE ==> old(self).free@[j] != 1
                    &&& final(self).free@ == old(self).free@
                },
            },
    {
        let mut idx: usize = 0;
        while idx < RING_SIZE
            invariant
                self.wf(),
                *self == *old(self),
                idx <= RING_SIZE,
                forall|j: int| 0 <= j < idx ==> self.free@[j] != 1,
            decreases RING_SIZE - idx,
        {
            if self.free[idx] == 1 {
                self.free.set(idx, 0);
                return Some(idx);
            }
            idx = idx + 1;
        }
        None
    }

    /// Give back the descriptor chain that starts at `idx`: every
    /// descriptor of the chain becomes free and empty, and the request
    /// header at `idx` is cleared. A chain is followed through `next` while
    /// the `DESC_NEXT` flag is set, for at most `RING_SIZE` descriptors.
    pub fn free_descs(&mut self, idx: usize)
        requires
            old(self).wf(),
            idx < RING_SIZE,
        ensures
            final(self).wf(),
            final(self).track@ == old(self).track@,
            final(self).avail_idx == old(self).avail_idx,
            final(self).avail_ring@ == old(self).avail_ring@,
            final(self).used_idx == old(self).used_idx,
            final(self).used_ring@ == old(self).used_ring@,
            final(self).last_seen_used == old(self).last_seen_used,
            final(self).reqs@ == old(self).reqs@.update(
                idx as int,
                VirtBlkReq { rtype: 0, reserved: 0, sector: 0 },
            ),
            final(self).free@[idx as int] == 1,
            final(self).desc@[idx as int] == empty_desc(),
            forall|k: int|
                0 <= k < RING_SIZE ==> (#[trigger] final(self).desc@[k] == old(self).desc@[k]
                    && final(self).free@[k] == old(self).free@[k]) || (final(self).desc@[k]
                    == empty_desc() && final(self).free@[k] == 1),
            chain_distinct(old(self).desc@, idx as int, RING_SIZE as nat) ==> forall|j: int|
                0 <= j < chain(old(self).desc@, idx as int, RING_SIZE as nat).len() ==> {
                    let k = #[trigger] chain(old(self).desc@, idx as int, RING_SIZE as nat)[j];
                    final(self).free@[k] == 1 && final(self).desc@[k] == empty_desc()
                },
            forall|k: int|
                0 <= k < RING_SIZE && !chain(old(self).desc@, idx as int, RING_SIZE as nat).contains(k)
                    ==> #[trigger] final(self).desc@[k] == old(self).desc@[k] && final(self).free@[k]
                    == old(self).free@[k],
    {
        let ghost d0 = self.desc@;
        let ghost f0 = self.free@;
        let ghost whole = chain(d0, idx as int, RING_SIZE as nat);
        proof {
            lemma_chain_in_range(d0, idx as int, RING_SIZE as nat);
        }
        self.reqs.set(idx, VirtBlkReq { rtype: 0, reserved: 0, sector: 0 });
        let mut cur = idx;
        let mut steps: usize = 0;
        loop
            invariant_except_break
                self.wf(),
                idx < RING_SIZE,
                cur < RING_SIZE,
                steps < RING_SIZE,
                self.track@ == old(self).track@,
                self.avail_idx == old(self).avail_idx,
                self.avail_ring@ == old(self).avail_ring@,
                self.used_idx == old(self).used_idx,
                self.used_ring@ == old(self).used_ring@,
                self.last_seen_used == old(self).last_seen_used,
                self.reqs@ == old(self).reqs@.update(
                    idx as int,
                    VirtBlkReq { rtype: 0, reserved: 0, sector: 0 },
                ),
                d0 == old(self).desc@,
                f0 == old(self).free@,
                whole == chain(d0, idx as int, RING_SIZE as nat),
                forall|j: int| 0 <= j < whole.len() ==> 0 <= #[trigger] whole[j] < RING_SIZE,
                steps == 0 ==> cur == idx,
                steps > 0 ==> self.free@[idx as int] == 1 && self.desc@[idx as int] == empty_desc(),
                forall|k: int|
                    0 <= k < RING_SIZE ==> (#[trigger] self.desc@[k] == d0[k] && self.free@[k]
                        == f0[k]) || (self.desc@[k] == empty_desc() && self.free@[k] == 1),
                steps < whole.len(),
                whole == whole.take(steps as int) + chain(d0, cur as int, (RING_SIZE - steps) as nat),
                forall|k: int|
                    0 <= k < RING_SIZE && !whole.take(steps as int).contains(k) ==> #[trigger] self.desc@[k]
                        == d0[k] && self.free@[k] == f0[k],
                chain_distinct(d0, idx as int, RING_SIZE as nat) ==> {
                    &&& steps < whole.len()
                    &&& whole == whole.take(steps as int) + chain(
                        d0,
                        cur as int,
                        (RING_SIZE - steps) as nat,
                    )
                    &&& self.desc@[cur as int] == d0[cur as int]
                    &&& forall|k: int|
                        0 <= k < RING_SIZE && !whole.take(steps as int).contains(k) ==> #[trigger] self.desc@[k]
                            == d0[k]
                    &&& forall|j: int| 0 <= j < steps ==> {
                        let k = #[trigger] whole[j];
                        self.free@[k] == 1 && self.desc@[k] == empty_desc()
                    }
                },
            ensures
                self.wf(),
                self.track@ == old(self).track@,
                self.avail_idx == old(self).avail_idx,
                self.avail_ring@ == old(self).avail_ring@,
                self.used_idx == old(self).used_idx,
                self.used_ring@ == old(self).used_ring@,
                self.last_seen_used == old(self).last_seen_used,
                self.reqs@ == old(self).reqs@.update(
                    idx as int,
                    VirtBlkReq { rtype: 0, reserved: 0, sector: 0 },
                ),
                self.free@[idx as int] == 1,
                self.desc@[idx as int] == empty_desc(),
                forall|k: int|
                    0 <= k < RING_SIZE ==> (#[trigger] self.desc@[k] == d0[k] && self.free@[k]
                        == f0[k]) || (self.desc@[k] == empty_desc() && self.free@[k] == 1),
                chain_distinct(d0, idx as int, RING_SIZE as nat) ==> forall|j: int|
                    0 <= j < whole.len() ==> {
                        let k = #[trigger] whole[j];
                        self.free@[k] == 1 && self.desc@[k] == empty_desc()
                    },
                kept_off_chain(whole, d0, f0, self.desc@, self.free@),
            decreases RING_SIZE - steps,
        {
            let d = self.desc[cur];
            let ghost before = self.desc@;
            let ghost fbefore = self.free@;
            let ghost s0 = steps as int;
            let ghost c0 = cur as int;
            self.free.set(cur, 1);
            self.desc.set(cur, VirtQueueDesc { addr: 0, len: 0, flags: 0, next: 0 });
            proof {
                assert(self.free@ == fbefore.update(c0, 1u8));
                assert(self.desc@ == before.update(c0, empty_desc()));
                assert(self.free@[c0] == 1);
                assert(self.desc@[c0] == empty_desc());
                if s0 > 0 {
                    assert(fbefore[idx as int] == 1);
                }
                lemma_chain_unfold(d0, cur as int, (RING_SIZE - steps) as nat);
                assert forall|k: int|
                    0 <= k < RING_SIZE implies (#[trigger] self.desc@[k] == d0[k] && self.free@[k]
                        == f0[k]) || (self.desc@[k] == empty_desc() && self.free@[k] == 1) by {
                    if k != c0 {
                        assert(self.desc@[k] == before[k] && self.free@[k] == fbefore[k]);
                    }
                }
            }
            if d.flags & DESC_NEXT != 0 && steps + 1 < RING_SIZE {
                cur = d.next as usize;
                steps = steps + 1;
                proof {
                    assert(d == d0[c0]) by {
                        if before[c0] != d0[c0] {
                            assert(before[c0] == empty_desc());
                            assert(0u16 & 1u16 == 0) by (bit_vector);
                        }
                    }
                    let rest = chain(d0, d0[c0].next as int, (RING_SIZE - steps) as nat);
                    lemma_chain_unfold(d0, d0[c0].next as int, (RING_SIZE - steps) as nat);
                    assert(whole =~= whole.take(s0) + (seq![c0] + rest));
                    assert(whole[s0] == c0);
                    assert(whole.take(steps as int) =~= whole.take(s0).push(c0));
                    assert(whole =~= whole.take(steps as int) + rest);
                    assert forall|k: int|
                        0 <= k < RING_SIZE && !whole.take(steps as int).contains(k) implies #[trigger] self.desc@[k]
                            == d0[k] && self.free@[k] == f0[k] by {
                        assert(whole.take(steps as int)[s0] == c0);
                        assert(k != c0);
                        assert(!whole.take(s0).contains(k)) by {
                            if whole.take(s0).contains(k) {
                                let j = choose|j: int| 0 <= j < s0 && whole.take(s0)[j] == k;
                                assert(whole.take(steps as int)[j] == k);
                            }
                        }
                        assert(self.desc@[k] == before[k] && self.free@[k] == fbefore[k]);
                    }
                }
                proof {
                    if chain_distinct(d0, idx as int, RING_SIZE as nat) {
                        let rest = chain(d0, d0[c0].next as int, (RING_SIZE - steps) as nat);
                        lemma_chain_unfold(d0, d0[c0].next as int, (RING_SIZE - steps) as nat);
                        assert(whole =~= whole.take(s0) + (seq![c0] + rest));
                        assert(whole[s0] == c0);
                        assert(whole.take(steps as int) =~= whole.take(s0).push(c0));
                        assert(whole =~= whole.take(steps as int) + rest);
                        lemma_chain_unfold(d0, cur as int, (RING_SIZE - steps) as nat);
                        assert(whole[steps as int] == cur);
                        assert forall|k: int|
                            0 <= k < RING_SIZE && !whole.take(steps as int).contains(k) implies #[trigger] self.desc@[k]
                                == d0[k] by {
                            assert(k != c0);
                            if whole.take(s0).contains(k) {
                                let j = choose|j: int| 0 <= j < s0 && whole.take(s0)[j] == k;
                                assert(whole.take(steps as int)[j] == k);
                            }
                        }
                        assert(!whole.take(steps as int).contains(cur as int)) by {
                            if whole.take(steps as int).contains(cur as int) {
                                let j = choose|j: int| 0 <= j < steps && whole.take(steps as int)[j] == cur as int;
                                assert(whole[j] == whole[steps as int]);
                            }
                        }
                        assert forall|j: int| 0 <= j < steps implies {
                            let k = #[trigger] whole[j];
                            self.free@[k] == 1 && self.desc@[k] == empty_desc()
                        } by {
                            if j < s0 {
                                let k = whole[j];
                                if k != c0 {
                                    assert(self.free@[k] == fbefore[k]);
                                }
                            }
                        }
                    }
                }
            } else {
                proof {
                    assert forall|k: int|
                        0 <= k < RING_SIZE && !whole.contains(k) implies #[trigger] self.desc@[k] == d0[k]
                            && self.free@[k] == f0[k] by {
                        assert(whole[s0] == c0);
                        assert(k != c0);
                        assert(!whole.take(s0).contains(k)) by {
                            if whole.take(s0).contains(k) {
                                let j = choose|j: int| 0 <= j < s0 && whole.take(s0)[j] == k;
                                assert(whole[j] == k);
                            }
                        }
                        assert(self.desc@[k] == before[k] && self.free@[k] == fbefore[k]);
                    }
                    assert(self.free@[idx as int] == 1 && self.desc@[idx as int] == empty_desc()) by {
                        if s0 == 0 {
                            assert(c0 == idx);
                        } else {
                            assert(fbefore[idx as int] == 1 && before[idx as int] == empty_desc());
                        }
                    }
                    if chain_distinct(d0, idx as int, RING_SIZE as nat) {
                        assert(whole =~= whole.take(s0) + seq![c0]);
                        assert forall|j: int| 0 <= j < whole.len() implies {
                            let k = #[trigger] whole[j];
                            self.free@[k] == 1 && self.desc@[k] == empty_desc()
                        } by {
                            if j < s0 {
                                let k = whole[j];
                                if k != c0 {
                                    assert(self.free@[k] == fbefore[k]);
                                }
                            } else {
                                assert(whole[j] == c0);
                            }
                        }
                    }
                }
                assert(kept_off_chain(whole, d0, f0, self.desc@, self.free@));
                break;
            }
        }
    }

    /// Queue a block request (section 2.6.13 of the virtio spec): three
    /// descriptors, the first free ones, for the request header (the header
    /// of chain head `h` lies at `reqs_base + 16 * h`), the data and the
    /// status byte at `status_addr`; the chain head goes into the available
    /// ring. The caller then notifies the device. Gives the chain head.
    /// Descriptors already taken when the table runs out stay taken.
    pub fn blk_request(&mut self, write: bool, status_addr: u64, reqs_base: u64, buf: &Block) -> (r:
        Result<usize, BlkError>)
        requires
            old(self).wf(),
            reqs_base + BLK_REQ_SIZE * RING_SIZE <= u64::MAX,
        ensures
            final(self).wf(),
            final(self).used_idx == old(self).used_idx,
            final(self).used_ring@ == old(self).used_ring@,
            final(self).last_seen_used == old(self).last_seen_used,
            buf.len % 512 != 0 ==> r == Err::<usize, BlkError>(BlkError::BadLength) && *final(self)
                == *old(self),
            r matches Err(e) ==> (e == BlkError::BadLength <==> buf.len % 512 != 0),
            r matches Err(e) ==> e == BlkError::BadLength || e == BlkError::DescTableFull,
            buf.len % 512 == 0 && (exists|a: int, b: int, c: int|
                #![trigger old(self).free@[a], old(self).free@[b], old(self).free@[c]]
                0 <= a < b < c < RING_SIZE && old(self).free@[a] == 1 && old(self).free@[b] == 1
                    && old(self).free@[c] == 1) ==> r is Ok,
            r matches Err(e) ==> e == BlkError::DescTableFull ==> forall|a: int, b: int, c: int|
                #![trigger old(self).free@[a], old(self).free@[b], old(self).free@[c]]
                0 <= a < b < c < RING_SIZE ==> !(old(self).free@[a] == 1 && old(self).free@[b] == 1
                    && old(self).free@[c] == 1),
            r matches Ok(h) ==> {
                let d = final(self).desc@[h as int].next as int;
                let s = final(self).desc@[d].next as int;
                &&& buf.len % 512 == 0
                &&& h < RING_SIZE
                &&& h < d < s
                &&& forall|j: int| 0 <= j < s && j != h && j != d ==> old(self).free@[j] != 1
                &&& old(self).free@[h as int] == 1 && old(self).free@[d] == 1 && old(self).free@[s] == 1
                &&& final(self).free@[h as int] == 0 && final(self).free@[d] == 0 && final(self).free@[s] == 0
                &&& final(self).reqs@[h as int] == (VirtBlkReq {
                    rtype: if write { 1 } else { 0 },
                    reserved: 0,
                    sector: buf.offset / 512,
                })
                &&& final(self).track@[h as int] == status_addr
                &&& final(self).desc@[h as int] == (VirtQueueDesc {
                    addr: (reqs_base + BLK_REQ_SIZE * h) as u64,
                    len: BLK_REQ_SIZE as u32,
                    flags: DESC_NEXT,
                    next: d as u16,
                })
                &&& final(self).desc@[d] == (VirtQueueDesc {
                    addr: buf.data,
                    len: buf.len,
                    flags: if write { DESC_NEXT } else { (DESC_WRITE + DESC_NEXT) as u16 },
                    next: s as u16,
                })
                &&& final(self).desc@[s] == (VirtQueueDesc {
                    addr: status_addr,
                    len: 1,
                    flags: DESC_WRITE,
                    next: 0,
                })
                &&& final(self).avail_ring@ == old(self).avail_ring@.update(
                    (old(self).avail_idx % 32) as int,
                    h as u16,
                )
                &&& final(self).avail_idx == (old(self).avail_idx + 1) % 0x1_0000
            },
    {
        if buf.len % 512 != 0 {
            return Err(BlkError::BadLength);
        }
        let rtype: u32 = if write {
            1
        } else {
            0
        };
        let dflag: u16 = if write {
            0
        } else {
            DESC_WRITE
        };
        let ghost f0 = self.free@;
        let head = match self.alloc_desc() {
            Some(i) => i,
            None => {
                return Err(BlkError::DescTableFull);
            },
        };
        let ghost f1 = self.free@;
        let data = match self.alloc_desc() {
            Some(i) => i,
            None => {
                proof {
                    assert forall|a: int, b: int, c: int|
                        0 <= a < b < c < RING_SIZE implies !(f0[a] == 1 && f0[b] == 1 && f0[c] == 1) by {
                        if f0[a] == 1 && f0[b] == 1 && f0[c] == 1 {
                            if a != head {
                                assert(f1[a] == 1);
                            } else {
                                assert(f1[b] == 1);
                            }
                        }
                    }
                }
                return Err(BlkError::DescTableFull);
            },
        };
        let ghost f2 = self.free@;
        let stat = match self.alloc_desc() {
            Some(i) => i,
            None => {
                proof {
                    assert forall|a: int, b: int, c: int|
                        0 <= a < b < c < RING_SIZE implies !(f0[a] == 1 && f0[b] == 1 && f0[c] == 1) by {
                        if f0[a] == 1 && f0[b] == 1 && f0[c] == 1 {
                            if a != head && a != data {
                                assert(f2[a] == 1);
                            } else if b != head && b != data {
                                assert(f2[b] == 1);
                            } else {
                                assert(f2[c] == 1);
                            }
                        }
                    }
                }
                return Err(BlkError::DescTableFull);
            },
        };
        proof {
            assert(head < data) by {
                if data < head {
                    assert(f0[data as int] == 1);
                }
            }
            assert(data < stat) by {
                if stat < data {
                    assert(f1[stat as int] == 1);
                }
            }
            assert forall|j: int| 0 <= j < stat && j != head && j != data implies f0[j] != 1 by {
                assert(f2[j] != 1);
            }
        }
        self.reqs.set(head, VirtBlkReq { rtype, reserved: 0, sector: buf.offset / 512 });
        self.track.set(head, status_addr);
        self.desc.set(
            head,
            VirtQueueDesc {
                addr: reqs_base + BLK_REQ_SIZE * (head as u64),
                len: BLK_REQ_SIZE as u32,
                flags: DESC_NEXT,
                next: data as u16,
            },
        );
        proof {
            assert(dflag | 1u16 == if write { 1u16 } else { 3u16 }) by (bit_vector)
                requires
                    dflag == if write { 0u16 } else { 2u16 },
            ;
        }
        self.desc.set(
            data,
            VirtQueueDesc { addr: buf.data, len: buf.len, flags: dflag | DESC_NEXT, next: stat as u16 },
        );
        self.desc.set(stat, VirtQueueDesc { addr: status_addr, len: 1, flags: DESC_WRITE, next: 0 });
        let slot = (self.avail_idx % (RING_SIZE as u16)) as usize;
        self.avail_ring.set(slot, head as u16);
        self.avail_idx = self.avail_idx.wrapping_add(1);
        Ok(head)
    }

    /// Take the next request the device has finished, if any: its chain
    /// head and status address. Its descriptors are given back
    /// (`free_descs`). The caller checks the status byte.
    pub fn complete_next(&mut self) -> (r: Option<(usize, u64)>)
        requires
            old(self).wf(),
        ensures
            final(self).wf(),
            old(self).last_seen_used == old(self).used_idx ==> r is None && *final(self) == *old(self),
            r matches Some((id, st)) ==> {
                &&& old(self).last_seen_used != old(self).used_idx
                &&& id == old(self).used_ring@[(old(self).last_seen_used % 32) as int].0
                &&& st == old(self).track@[id as int]
                &&& final(self).last_seen_used == (old(self).last_seen_used + 1) % 0x1_0000
                &&& final(self).free@[id as int] == 1
                &&& final(self).desc@[id as int] == empty_desc()
            },
            old(self).last_seen_used != old(self).used_idx ==> r is Some,
    {
        if self.last_seen_used == self.used_idx {
            return None;
        }
        let slot = (self.last_seen_used % (RING_SIZE as u16)) as usize;
        let id = self.used_ring[slot].0 as usize;
        let st = self.track[id];
        self.last_seen_used = self.last_seen_used.wrapping_add(1);
        self.free_descs(id);
        Some((id, st))
    }
}

/// The descriptors of the chain that starts at `i`, following at most
/// `fuel` of them.
pub open spec fn chain(d: Seq<VirtQueueDesc>, i: int, fuel: nat) -> Seq<int>
    decreases fuel,
{
    if fuel == 0 {
        Seq::empty()
    } else if d[i].flags & DESC_NEXT != 0 && fuel > 1 {
        seq![i] + chain(d, d[i].next as int, (fuel - 1) as nat)
    } else {
        seq![i]
    }
}

/// No descriptor appears twice on the chain from `i`.
pub open spec fn chain_distinct(d: Seq<VirtQueueDesc>, i: int, fuel: nat) -> bool {
    chain(d, i, fuel).no_duplicates()
}

proof fn lemma_chain_unfold(d: Seq<VirtQueueDesc>, i: int, fuel: nat)
    requires
        fuel >= 1,
    ensures
        chain(d, i, fuel)[0] == i,
        chain(d, i, fuel).len() >= 1,
        d[i].flags & DESC_NEXT != 0 && fuel > 1 ==> chain(d, i, fuel) == seq![i] + chain(
            d,
            d[i].next as int,
            (fuel - 1) as nat,
        ),
        !(d[i].flags & DESC_NEXT != 0 && fuel > 1) ==> chain(d, i, fuel) == seq![i],
{
}

/// The chain a block request puts in the table, a header, a data and a
/// status descriptor, is those three descriptors, each once; so completing
/// the request frees all three (`free_descs`).
pub proof fn law_request_chain(d: Seq<VirtQueueDesc>, h: int)
    requires
        d.len() == RING_SIZE,
        0 <= h < RING_SIZE,
        d[h].flags == DESC_NEXT,
        d[d[h].next as int].flags & DESC_NEXT != 0,
        d[d[d[h].next as int].next as int].flags == DESC_WRITE,
        h != d[h].next,
        d[h].next != d[d[h].next as int].next,
        h != d[d[h].next as int].next,
    ensures
        chain(d, h, RING_SIZE as nat) == seq![
            h,
            d[h].next as int,
            d[d[h].next as int].next as int,
        ],
        chain_distinct(d, h, RING_SIZE as nat),
{
    let n = d[h].next as int;
    let s = d[n].next as int;
    assert(1u16 & 1u16 != 0u16 && 2u16 & 1u16 == 0u16) by (bit_vector);
    lemma_chain_unfold(d, h, RING_SIZE as nat);
    lemma_chain_unfold(d, n, (RING_SIZE - 1) as nat);
    lemma_chain_unfold(d, s, (RING_SIZE - 2) as nat);
    assert(chain(d, h, RING_SIZE as nat) =~= seq![h, n, s]);
}

proof fn lemma_chain_in_range(d: Seq<VirtQueueDesc>, i: int, fuel: nat)
    requires
        0 <= i < RING_SIZE,
        d.len() == RING_SIZE,
        forall|k: int| 0 <= k < RING_SIZE ==> (#[trigger] d[k]).next < RING_SIZE,
    ensures
        forall|j: int| 0 <= j < chain(d, i, fuel).len() ==> 0 <= #[trigger] chain(d, i, fuel)[j] < RING_SIZE,
    decreases fuel,
{
    if fuel > 1 && d[i].flags & DESC_NEXT != 0 {
        lemma_chain_in_range(d, d[i].next as int, (fuel - 1) as nat);
        let rest = chain(d, d[i].next as int, (fuel - 1) as nat);
        assert forall|j: int| 0 <= j < chain(d, i, fuel).len() implies 0 <= #[trigger] chain(d, i, fuel)[j] < RING_SIZE by {
            if j > 0 {
                assert(chain(d, i, fuel)[j] == rest[j - 1]);
            }
        }
    }
}

} // verus!
