use stratis_backstore::admission::{Candidate, DevInfo, initialize};
use stratis_backstore::batch::{InitAction, InitBatch};
use stratis_backstore::resolve::resolve_devices;
use stratis_backstore::blockdev::BlockDev;
use stratis_backstore::blockdevmgr::BlockDevMgr;
use stratis_backstore::data_tier::DataTier;
use stratis_backstore::errors::{Cause, EngineError, ErrorKind};
use stratis_backstore::segment::{BlkDevSegment, Segment};
use stratis_backstore::types::{BlockDevTier, DevOwnership, Device, MIN_MDA_SECTORS};

const GIB: u64 = 1 << 30;
const GIB_SECTORS: u64 = GIB / 512;
const POOL: u128 = 0x5f0c_1a2b_3c4d_4e5f_8a9b_0c1d_2e3f_4a5b;

/// A device that lives in memory.
struct Disk {
    device: Device,
    devnode: String,
    size: u64,
    ownership: DevOwnership,
    fail_write: bool,
    fail_wipe: bool,
}

fn disk(minor: u32, size: u64) -> Disk {
    Disk {
        device: Device { major: 7, minor },
        devnode: format!("/dev/loop{}", minor),
        size,
        ownership: DevOwnership::Unowned,
        fail_write: false,
        fail_wipe: false,
    }
}

/// Looks every path up and gathers the facts of the devices found.
fn gather(disks: &[Disk], paths: &[&str], first_uuid: u128) -> Vec<Candidate> {
    let lookups: Vec<Result<Device, Cause>> = paths
        .iter()
        .enumerate()
        .map(|(i, p)| match disks.iter().find(|d| d.devnode == *p) {
            Some(d) => Ok(d.device),
            None => Err(Cause::Unresolved { path: i, errno: 2 }),
        })
        .collect();
    let devices = resolve_devices(&lookups).unwrap();
    devices
        .iter()
        .enumerate()
        .map(|(i, dev)| {
            let d = disks.iter().find(|d| d.device == *dev).unwrap();
            Candidate {
                device: *dev,
                info: Ok(DevInfo {
                    devnode: d.devnode.clone(),
                    size: d.size,
                    ownership: d.ownership,
                }),
                uuid: first_uuid + i as u128,
            }
        })
        .collect()
}

/// Performs what the batch asks for until it is done.
fn run(disks: &mut [Disk], mut batch: InitBatch) -> Result<Vec<BlockDev>, EngineError> {
    loop {
        match batch.next_action() {
            InitAction::WriteHeader(req) => {
                let d = disks.iter_mut().find(|d| d.device == req.device).unwrap();
                let ok = !d.fail_write;
                d.ownership = if ok { DevOwnership::Ours(req.pool_uuid) } else { DevOwnership::Theirs };
                batch.advance(ok);
            }
            InitAction::Wipe(device) => {
                let d = disks.iter_mut().find(|d| d.device == device).unwrap();
                let ok = !d.fail_wipe;
                if ok {
                    d.ownership = DevOwnership::Unowned;
                }
                batch.advance(ok);
            }
            InitAction::Done => break,
        }
    }
    assert!(batch.is_done());
    batch.finish()
}

fn wipe_all(disks: &mut [Disk], devices: &[Device]) -> Vec<bool> {
    devices
        .iter()
        .map(|dev| {
            let d = disks.iter_mut().find(|d| d.device == *dev).unwrap();
            let ok = !d.fail_wipe;
            if ok {
                d.ownership = DevOwnership::Unowned;
            }
            ok
        })
        .collect()
}

/// Put the data tier through some paces. Make it, alloc a small amount,
/// add some more blockdevs, allocate enough that the newly added blockdevs
/// must be allocated from for success.
fn test_add_and_alloc(disks: &mut [Disk]) {
    let names: Vec<String> = disks.iter().map(|d| d.devnode.clone()).collect();
    let paths: Vec<&str> = names.iter().map(|s| s.as_str()).collect();
    assert!(paths.len() > 1);
    let (paths1, paths2) = paths.split_at(paths.len() / 2);

    let pool_uuid = POOL;

    let batch = BlockDevMgr::initialize(pool_uuid, &gather(disks, paths1, 100), MIN_MDA_SECTORS, false)
        .unwrap();
    let mgr = BlockDevMgr::new(run(disks, batch).unwrap());

    let mut data_tier = DataTier::new(mgr);

    // A data_tier w/ some devices but nothing allocated
    let mut current_capacity = data_tier.current_capacity();
    let mut capacity = data_tier.capacity();
    assert_eq!(capacity, 0);
    assert!(current_capacity != 0);
    assert_eq!(paths1.len(), data_tier.blockdevs().len());

    let last_request_amount = current_capacity;

    let request_amount = data_tier.block_mgr().avail_space() / 2;
    assert!(request_amount != 0);

    assert!(data_tier.allocate(request_amount as u64));

    // A data tier w/ some amount allocated
    assert!(data_tier.capacity() >= request_amount);
    assert_eq!(data_tier.current_capacity(), current_capacity);
    capacity = data_tier.capacity();

    let batch = data_tier.add(pool_uuid, &gather(disks, paths2, 200), false).unwrap();
    let added = data_tier.adopt(run(disks, batch).unwrap());
    assert_eq!(added.len(), paths2.len());

    // A data tier w/ additional blockdevs added
    assert!(data_tier.current_capacity() > current_capacity);
    assert_eq!(data_tier.capacity(), capacity);
    assert_eq!(paths1.len() + paths2.len(), data_tier.blockdevs().len());
    current_capacity = data_tier.current_capacity();

    // Allocate enough to get into the newly added block devices
    assert!(data_tier.allocate(last_request_amount as u64));

    assert!(data_tier.capacity() >= request_amount + last_request_amount);
    assert_eq!(data_tier.current_capacity(), current_capacity);

    let devices = data_tier.block_mgr().devices();
    let outcomes = wipe_all(disks, &devices);
    data_tier.destroy(&outcomes).unwrap();
    assert!(disks.iter().all(|d| d.ownership == DevOwnership::Unowned));
}

#[test]
pub fn loop_test_add_and_alloc() {
    test_add_and_alloc(&mut [disk(0, GIB), disk(1, GIB)]);
    test_add_and_alloc(&mut [disk(0, GIB), disk(1, GIB), disk(2, GIB)]);
}

#[test]
pub fn real_test_add_and_alloc() {
    test_add_and_alloc(&mut [disk(0, 2 * GIB), disk(1, 3 * GIB)]);
    test_add_and_alloc(&mut [disk(0, 2 * GIB), disk(1, 3 * GIB), disk(2, 8 * GIB), disk(3, 5 * GIB)]);
}

#[test]
pub fn travis_test_add_and_alloc() {
    test_add_and_alloc(&mut [disk(0, GIB), disk(1, GIB)]);
    test_add_and_alloc(&mut [disk(0, GIB), disk(1, GIB), disk(2, GIB)]);
}

fn seg(uuid: u128, minor: u32, start: u64, length: u64) -> BlkDevSegment {
    BlkDevSegment::new(uuid, Segment::new(Device { major: 7, minor }, start, length))
}

#[test]
fn end_to_end_with_exact_extents() {
    let mut disks = [disk(0, 2 * GIB), disk(1, 3 * GIB), disk(2, 2 * GIB), disk(3, 2 * GIB)];
    let first = ["/dev/loop0", "/dev/loop1"];
    let second = ["/dev/loop2", "/dev/loop3"];

    let batch = initialize(POOL, &gather(&disks, &first, 100), MIN_MDA_SECTORS, false).unwrap();
    let mut tier = DataTier::new(BlockDevMgr::new(run(&mut disks, batch).unwrap()));
    assert_eq!(disks[0].ownership, DevOwnership::Ours(POOL));
    assert_eq!(disks[1].ownership, DevOwnership::Ours(POOL));

    assert_eq!(tier.block_mgr().avail_space(), (5 * GIB_SECTORS - 2 * MIN_MDA_SECTORS) as u128);
    assert_eq!(tier.current_capacity(), (5 * GIB_SECTORS) as u128);
    assert_eq!(tier.metadata_size(), (2 * MIN_MDA_SECTORS) as u128);
    assert_eq!(tier.capacity(), 0);

    let half = 5_240_840u64;
    assert_eq!(tier.block_mgr().avail_space() / 2, half as u128);
    assert!(tier.allocate(half));
    assert_eq!(tier.capacity(), half as u128);
    assert_eq!(tier.current_capacity(), (5 * GIB_SECTORS) as u128);
    assert_eq!(
        tier.segments(),
        &vec![seg(100, 0, 2040, 4_192_264), seg(101, 1, 2040, 1_048_576)]
    );

    let batch = tier.add(POOL, &gather(&disks, &second, 200), false).unwrap();
    let added = tier.adopt(run(&mut disks, batch).unwrap());
    assert_eq!(added, vec![200, 201]);
    assert_eq!(tier.current_capacity(), (9 * GIB_SECTORS) as u128);
    assert_eq!(tier.capacity(), half as u128);
    assert_eq!(tier.blockdevs().len(), 4);

    assert!(tier.allocate(5 * GIB_SECTORS));
    assert_eq!(tier.capacity(), (half + 5 * GIB_SECTORS) as u128);
    assert_eq!(tier.current_capacity(), (9 * GIB_SECTORS) as u128);
    assert_eq!(
        tier.segments(),
        &vec![
            seg(100, 0, 2040, 4_192_264),
            seg(101, 1, 2040, 6_289_416),
            seg(200, 2, 2040, 4_192_264),
            seg(201, 3, 2040, 1_052_656),
        ]
    );

    let devices = tier.block_mgr().devices();
    let outcomes = wipe_all(&mut disks, &devices);
    assert_eq!(tier.destroy(&outcomes), Ok(()));
    assert!(disks.iter().all(|d| d.ownership == DevOwnership::Unowned));
}

#[test]
fn allocation_fails_exactly_when_space_is_short() {
    let mut disks = [disk(0, GIB), disk(1, GIB)];
    let batch =
        initialize(POOL, &gather(&disks, &["/dev/loop0", "/dev/loop1"], 1), MIN_MDA_SECTORS, false)
            .unwrap();
    let mut mgr = BlockDevMgr::new(run(&mut disks, batch).unwrap());
    let avail = mgr.avail_space();
    assert_eq!(avail, (2 * (GIB_SECTORS - 2040)) as u128);

    assert_eq!(mgr.alloc_request(avail as u64 + 1), None);
    assert_eq!(mgr.avail_space(), avail);

    assert_eq!(mgr.alloc_request(0), Some(vec![]));
    assert_eq!(mgr.avail_space(), avail);

    let segs = mgr.alloc_request(avail as u64).unwrap();
    assert_eq!(segs, vec![seg(1, 0, 2040, GIB_SECTORS - 2040), seg(2, 1, 2040, GIB_SECTORS - 2040)]);
    assert_eq!(segs.iter().map(|s| s.segment.length as u128).sum::<u128>(), avail);
    assert_eq!(mgr.avail_space(), 0);
    assert_eq!(mgr.alloc_request(1), None);
    assert_eq!(mgr.alloc_request(0), Some(vec![]));
}

#[test]
fn allocation_takes_from_devices_in_order() {
    let mut disks = [disk(0, GIB), disk(1, GIB)];
    let batch =
        initialize(POOL, &gather(&disks, &["/dev/loop0", "/dev/loop1"], 1), MIN_MDA_SECTORS, false)
            .unwrap();
    let mut mgr = BlockDevMgr::new(run(&mut disks, batch).unwrap());
    assert_eq!(mgr.alloc_request(1000), Some(vec![seg(1, 0, 2040, 1000)]));
    assert_eq!(mgr.alloc_request(500), Some(vec![seg(1, 0, 3040, 500)]));
    let rest0 = GIB_SECTORS - 3540;
    assert_eq!(
        mgr.alloc_request(rest0 + 7),
        Some(vec![seg(1, 0, 3540, rest0), seg(2, 1, 2040, 7)])
    );
    assert_eq!(mgr.avail_space(), (GIB_SECTORS - 2047) as u128);
}

#[test]
fn failed_allocation_leaves_the_tier_as_it_was() {
    let mut disks = [disk(0, GIB)];
    let batch = initialize(POOL, &gather(&disks, &["/dev/loop0"], 1), MIN_MDA_SECTORS, false).unwrap();
    let mut tier = DataTier::new(BlockDevMgr::new(run(&mut disks, batch).unwrap()));
    assert!(tier.allocate(10));
    let before = tier.segments().clone();
    let avail = tier.block_mgr().avail_space();
    assert!(!tier.allocate(GIB_SECTORS));
    assert_eq!(tier.segments(), &before);
    assert_eq!(tier.block_mgr().avail_space(), avail);
    assert_eq!(tier.capacity(), 10);
}

#[test]
fn successive_allocations_coalesce_on_one_device() {
    let mut disks = [disk(0, GIB)];
    let batch = initialize(POOL, &gather(&disks, &["/dev/loop0"], 9), MIN_MDA_SECTORS, false).unwrap();
    let mut tier = DataTier::new(BlockDevMgr::new(run(&mut disks, batch).unwrap()));
    assert!(tier.allocate(10));
    assert!(tier.allocate(20));
    assert!(tier.allocate(30));
    assert_eq!(tier.segments(), &vec![seg(9, 0, 2040, 60)]);
    assert_eq!(tier.capacity(), 60);
}

#[test]
fn setup_reads_back_what_the_tier_wrote_down() {
    let mut disks = [disk(0, GIB), disk(1, 2 * GIB)];
    let cands = gather(&disks, &["/dev/loop0", "/dev/loop1"], 40);
    let batch = initialize(POOL, &cands, MIN_MDA_SECTORS, false).unwrap();
    let mut tier = DataTier::new(BlockDevMgr::new(run(&mut disks, batch).unwrap()));
    assert!(tier.allocate(GIB_SECTORS));
    assert!(tier.allocate(100));
    let segments = tier.segments().clone();
    let triples = tier.triples();
    assert_eq!(
        triples,
        vec![(40, 2040, GIB_SECTORS - 2040), (41, 2040, 2140)]
    );

    // The same devices, set up again from what was written down.
    for d in disks.iter_mut() {
        d.ownership = DevOwnership::Unowned;
    }
    let batch = initialize(POOL, &cands, MIN_MDA_SECTORS, false).unwrap();
    let mgr = BlockDevMgr::new(run(&mut disks, batch).unwrap());
    let again = DataTier::setup(mgr, &triples).unwrap();
    assert_eq!(again.segments(), &segments);
    let mut a = again.segments().clone();
    let mut b = segments.clone();
    a.sort_by_key(|s| (s.uuid, s.segment.start, s.segment.length));
    b.sort_by_key(|s| (s.uuid, s.segment.start, s.segment.length));
    assert_eq!(a, b);
    assert_eq!(again.triples(), triples);
}

#[test]
fn setup_fails_for_a_missing_device() {
    let mut disks = [disk(0, GIB)];
    let batch = initialize(POOL, &gather(&disks, &["/dev/loop0"], 40), MIN_MDA_SECTORS, false).unwrap();
    let mgr = BlockDevMgr::new(run(&mut disks, batch).unwrap());
    let err = DataTier::setup(mgr, &vec![(40, 2040, 10), (41, 2040, 10), (42, 0, 1)]).unwrap_err();
    assert_eq!(err.cause, Cause::MissingDevice { uuid: 41 });
    assert_eq!(err.kind(), ErrorKind::NotFound);
    assert!(err.devices.is_empty());
}

#[test]
fn setup_with_no_triples_is_an_empty_tier() {
    let mgr = BlockDevMgr::new(vec![]);
    let tier = DataTier::setup(mgr, &vec![]).unwrap();
    assert!(tier.segments().is_empty());
    assert_eq!(tier.capacity(), 0);
    assert_eq!(tier.current_capacity(), 0);
}

#[test]
fn lookups_by_uuid_are_marked_with_the_tier() {
    let mut disks = [disk(0, GIB), disk(1, 2 * GIB)];
    let batch =
        initialize(POOL, &gather(&disks, &["/dev/loop0", "/dev/loop1"], 40), MIN_MDA_SECTORS, false)
            .unwrap();
    let tier = DataTier::new(BlockDevMgr::new(run(&mut disks, batch).unwrap()));
    let (kind, bd) = tier.get_blockdev_by_uuid(41).unwrap();
    assert_eq!(kind, BlockDevTier::Data);
    assert_eq!(bd.uuid(), 41);
    assert_eq!(bd.device(), Device { major: 7, minor: 1 });
    assert_eq!(bd.devnode(), "/dev/loop1");
    assert_eq!(bd.size(), 2 * GIB_SECTORS);
    assert!(tier.get_blockdev_by_uuid(42).is_none());
    let all = tier.blockdevs();
    assert_eq!(all.len(), 2);
    assert_eq!(all[0].0, 40);
    assert_eq!(all[0].1.uuid(), 40);
    assert_eq!(all[1].0, 41);
    assert_eq!(all[1].1.device(), Device { major: 7, minor: 1 });
}

#[test]
fn requests_are_served_one_after_the_other() {
    let mut disks = [disk(0, GIB), disk(1, GIB)];
    let batch =
        initialize(POOL, &gather(&disks, &["/dev/loop0", "/dev/loop1"], 1), MIN_MDA_SECTORS, false)
            .unwrap();
    let mut mgr = BlockDevMgr::new(run(&mut disks, batch).unwrap());
    let free = GIB_SECTORS - 2040;
    let avail = mgr.avail_space();

    assert_eq!(mgr.alloc_space(&vec![free, free, 1]), None);
    assert_eq!(mgr.avail_space(), avail);
    assert_eq!(mgr.alloc_space(&vec![u64::MAX, u64::MAX, u64::MAX]), None);
    assert_eq!(mgr.alloc_space(&vec![]), Some(vec![]));

    let lists = mgr.alloc_space(&vec![100, 0, free, 50]).unwrap();
    assert_eq!(
        lists,
        vec![
            vec![seg(1, 0, 2040, 100)],
            vec![],
            vec![seg(1, 0, 2140, free - 100), seg(2, 1, 2040, 100)],
            vec![seg(2, 1, 2140, 50)],
        ]
    );
    assert_eq!(mgr.avail_space(), avail - (free as u128) - 150);
    assert_eq!(mgr.alloc_space(&vec![free - 150]).unwrap(), vec![vec![seg(2, 1, 2190, free - 150)]]);
    assert_eq!(mgr.avail_space(), 0);
    assert_eq!(mgr.alloc_space(&vec![0, 0]), Some(vec![vec![], vec![]]));
    assert_eq!(mgr.alloc_space(&vec![0, 1]), None);
}

#[test]
fn extents_of_a_tier_cover_what_is_allocated_and_never_overlap() {
    let mut disks = [disk(0, GIB), disk(1, 2 * GIB), disk(2, GIB), disk(3, 3 * GIB)];
    let batch =
        initialize(POOL, &gather(&disks, &["/dev/loop1", "/dev/loop0"], 10), MIN_MDA_SECTORS, false)
            .unwrap();
    let mut tier = DataTier::new(BlockDevMgr::new(run(&mut disks, batch).unwrap()));
    let mut handed_out = 0u128;
    for (step, request) in [1u64, 4_000_000, 7, 2_000_000, 0, 123_456, 5_000_000, 1_000_000].iter().enumerate() {
        if step == 3 {
            let batch = tier.add(POOL, &gather(&disks, &["/dev/loop3", "/dev/loop2"], 20), false).unwrap();
            assert_eq!(tier.adopt(run(&mut disks, batch).unwrap()), vec![20, 21]);
        }
        let avail = tier.block_mgr().avail_space();
        let granted = tier.allocate(*request);
        assert_eq!(granted, avail >= *request as u128);
        if granted {
            handed_out += *request as u128;
        }
        let segs = tier.segments();
        assert_eq!(tier.capacity(), handed_out);
        let allocated: u128 = tier
            .blockdevs()
            .iter()
            .map(|(_, bd)| (bd.size() - bd.metadata_size() - bd.available()) as u128)
            .sum();
        assert_eq!(tier.capacity(), allocated);
        assert_eq!(
            tier.capacity() + tier.block_mgr().avail_space(),
            tier.current_capacity() - tier.metadata_size()
        );
        for (i, a) in segs.iter().enumerate() {
            assert!(a.segment.length > 0);
            let (_, owner) = tier.get_blockdev_by_uuid(a.uuid).unwrap();
            assert_eq!(owner.device(), a.segment.device);
            assert!(a.segment.start >= owner.metadata_size());
            assert!(a.segment.start + a.segment.length <= owner.size() - owner.available());
            for b in segs.iter().skip(i + 1) {
                assert!(
                    a.segment.device != b.segment.device
                        || a.segment.start + a.segment.length <= b.segment.start
                        || b.segment.start + b.segment.length <= a.segment.start
                );
            }
        }
        // One extent for each device that has given anything.
        let used = tier.blockdevs().iter().filter(|(_, bd)| bd.size() - bd.available() > bd.metadata_size()).count();
        assert_eq!(segs.len(), used);
    }
    assert_eq!(tier.blockdevs().len(), 4);
}
