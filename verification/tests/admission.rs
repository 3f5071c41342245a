use stratis_backstore::admission::{Candidate, DevInfo, InitTarget, Verdict, contains_uuid, filter_devs, holds_device, holds_uuid, initialize, judge_candidate, stage, validate_mda_size};
use stratis_backstore::batch::{HeaderRequest, InitAction, InitBatch};
use stratis_backstore::resolve::{contains_device, resolve_devices};
use stratis_backstore::blockdev::BlockDev;
use stratis_backstore::blockdevmgr::BlockDevMgr;
use stratis_backstore::errors::{Cause, EngineError, ErrorKind};
use stratis_backstore::types::{
    DevOwnership, Device, MIN_DEV_SECTORS, MIN_DEV_SIZE, MIN_MDA_SECTORS,
};

const GIB: u64 = 1 << 30;
const POOL: u128 = 0xaaaa_bbbb_cccc_4ddd_8eee_ffff_0000_1111;
const OTHER_POOL: u128 = 0x1111_2222_3333_4444_8555_6666_7777_8888;

fn dev(minor: u32) -> Device {
    Device { major: 8, minor }
}

fn cand(minor: u32, size: u64, ownership: DevOwnership, uuid: u128) -> Candidate {
    Candidate {
        device: dev(minor),
        info: Ok(DevInfo { devnode: format!("/dev/sd{}", minor), size, ownership }),
        uuid,
    }
}

fn unowned(minor: u32, uuid: u128) -> Candidate {
    cand(minor, GIB, DevOwnership::Unowned, uuid)
}

/// Performs what the batch asks for; `write_fails` and `wipe_fails` name
/// the devices on which a write or a wipe fails. Returns what was done.
fn run(
    mut batch: InitBatch,
    write_fails: &[Device],
    wipe_fails: &[Device],
) -> (Vec<InitAction>, Result<Vec<BlockDev>, EngineError>) {
    let mut log = Vec::new();
    loop {
        let action = batch.next_action();
        log.push(action);
        match action {
            InitAction::WriteHeader(req) => batch.advance(!write_fails.contains(&req.device)),
            InitAction::Wipe(device) => batch.advance(!wipe_fails.contains(&device)),
            InitAction::Done => break,
        }
    }
    assert!(batch.is_done());
    (log, batch.finish())
}

fn request(minor: u32, uuid: u128, mda_size: u64, dev_size: u64) -> InitAction {
    InitAction::WriteHeader(HeaderRequest {
        device: dev(minor),
        pool_uuid: POOL,
        dev_uuid: uuid,
        mda_size,
        dev_size,
    })
}

#[test]
fn duplicate_paths_resolve_to_one_device() {
    let lookups = vec![Ok(dev(1)), Ok(dev(1)), Ok(dev(1))];
    assert_eq!(resolve_devices(&lookups).unwrap(), vec![dev(1)]);
}

#[test]
fn resolution_keeps_each_device_once_in_first_seen_order() {
    let lookups = vec![Ok(dev(3)), Ok(dev(1)), Ok(dev(3)), Ok(dev(2)), Ok(dev(1))];
    assert_eq!(resolve_devices(&lookups).unwrap(), vec![dev(3), dev(1), dev(2)]);
    assert_eq!(resolve_devices(&vec![]).unwrap(), Vec::<Device>::new());
}

#[test]
fn devices_differ_by_major_or_minor() {
    let lookups = vec![Ok(Device { major: 8, minor: 1 }), Ok(Device { major: 9, minor: 1 })];
    assert_eq!(resolve_devices(&lookups).unwrap().len(), 2);
}

#[test]
fn resolution_fails_with_the_first_failure() {
    let lookups = vec![
        Ok(dev(1)),
        Err(Cause::Unresolved { path: 1, errno: 2 }),
        Ok(dev(2)),
        Err(Cause::Unresolved { path: 3, errno: 13 }),
    ];
    let err = resolve_devices(&lookups).unwrap_err();
    assert_eq!(err.cause, Cause::Unresolved { path: 1, errno: 2 });
    assert_eq!(err.kind(), ErrorKind::IoFailure);
    assert!(err.devices.is_empty());
}

#[test]
fn membership_helpers() {
    assert!(contains_device(&vec![dev(1), dev(2)], dev(2)));
    assert!(!contains_device(&vec![dev(1), dev(2)], dev(3)));
    assert!(!contains_device(&vec![], dev(3)));
    assert!(contains_uuid(&vec![5, 6], 5));
    assert!(!contains_uuid(&vec![5, 6], 7));
    let targets = vec![InitTarget { device: dev(1), devnode: "/dev/sd1".into(), size: GIB, uuid: 9 }];
    assert!(holds_device(&targets, dev(1)));
    assert!(!holds_device(&targets, dev(2)));
    assert!(holds_uuid(&targets, 9));
    assert!(!holds_uuid(&targets, 1));
}

#[test]
fn judgment_of_single_candidates() {
    assert_eq!(judge_candidate(&unowned(1, 1), POOL, false), Verdict::Admit);
    assert_eq!(judge_candidate(&unowned(1, 1), POOL, true), Verdict::Admit);
    assert_eq!(
        judge_candidate(&cand(1, GIB, DevOwnership::Theirs, 1), POOL, false),
        Verdict::Reject(Cause::OwnedByOther { device: dev(1) })
    );
    assert_eq!(judge_candidate(&cand(1, GIB, DevOwnership::Theirs, 1), POOL, true), Verdict::Admit);
    assert_eq!(
        judge_candidate(&cand(1, GIB, DevOwnership::Ours(POOL), 1), POOL, false),
        Verdict::Skip
    );
    assert_eq!(
        judge_candidate(&cand(1, GIB, DevOwnership::Ours(OTHER_POOL), 1), POOL, true),
        Verdict::Reject(Cause::OwnedByPool { device: dev(1), pool: OTHER_POOL })
    );
    let unread = Candidate {
        device: dev(4),
        info: Err(Cause::Io { device: dev(4), errno: 5 }),
        uuid: 1,
    };
    assert_eq!(
        judge_candidate(&unread, POOL, true),
        Verdict::Reject(Cause::Io { device: dev(4), errno: 5 })
    );
}

#[test]
fn minimum_size_is_one_gibibyte() {
    assert_eq!(MIN_DEV_SIZE, 1_073_741_824);
    assert_eq!(MIN_DEV_SECTORS, 2_097_152);
    assert_eq!(judge_candidate(&cand(1, MIN_DEV_SIZE, DevOwnership::Unowned, 1), POOL, false), Verdict::Admit);
    assert_eq!(
        judge_candidate(&cand(1, MIN_DEV_SIZE - 1, DevOwnership::Unowned, 1), POOL, false),
        Verdict::Reject(Cause::TooSmall { device: dev(1), size: MIN_DEV_SIZE - 1 })
    );
    // The size is judged before the owner.
    assert_eq!(
        judge_candidate(&cand(1, 0, DevOwnership::Ours(OTHER_POOL), 1), POOL, false),
        Verdict::Reject(Cause::TooSmall { device: dev(1), size: 0 })
    );
}

#[test]
fn small_device_fails_the_whole_batch() {
    for force in [false, true] {
        let devices = vec![unowned(1, 1), cand(2, GIB - 512, DevOwnership::Unowned, 2), unowned(3, 3)];
        let err = initialize(POOL, &devices, MIN_MDA_SECTORS, force).unwrap_err();
        assert_eq!(err.cause, Cause::TooSmall { device: dev(2), size: GIB - 512 });
        assert_eq!(err.kind(), ErrorKind::InvalidInput);
        assert!(err.devices.is_empty());
        let err = filter_devs(&devices, POOL, force).unwrap_err();
        assert_eq!(err.kind(), ErrorKind::InvalidInput);
    }
}

#[test]
fn device_of_another_pool_fails_the_whole_batch() {
    for force in [false, true] {
        let devices = vec![unowned(1, 1), cand(2, GIB, DevOwnership::Ours(OTHER_POOL), 2)];
        let err = initialize(POOL, &devices, MIN_MDA_SECTORS, force).unwrap_err();
        assert_eq!(err.cause, Cause::OwnedByPool { device: dev(2), pool: OTHER_POOL });
        assert_eq!(err.kind(), ErrorKind::InvalidInput);
    }
}

#[test]
fn adding_a_device_of_another_pool_leaves_the_manager_as_it_was() {
    let batch = initialize(POOL, &vec![unowned(1, 1)], MIN_MDA_SECTORS, false).unwrap();
    let mgr = BlockDevMgr::new(run(batch, &[], &[]).1.unwrap());
    for force in [false, true] {
        let devices = vec![unowned(5, 5), cand(2, 4 * GIB, DevOwnership::Ours(OTHER_POOL), 2)];
        let err = mgr.add(POOL, &devices, force).unwrap_err();
        assert_eq!(err.kind(), ErrorKind::InvalidInput);
        assert_eq!(err.cause, Cause::OwnedByPool { device: dev(2), pool: OTHER_POOL });
        assert_eq!(mgr.devices(), vec![dev(1)]);
        assert_eq!(mgr.uuids(), vec![1]);
        assert_eq!(mgr.len(), 1);
    }
}

#[test]
fn foreign_device_needs_force() {
    let devices = vec![cand(1, GIB, DevOwnership::Theirs, 1)];
    let err = initialize(POOL, &devices, MIN_MDA_SECTORS, false).unwrap_err();
    assert_eq!(err.cause, Cause::OwnedByOther { device: dev(1) });
    assert_eq!(err.kind(), ErrorKind::InvalidInput);
    let batch = initialize(POOL, &devices, MIN_MDA_SECTORS, true).unwrap();
    let (log, result) = run(batch, &[], &[]);
    assert_eq!(log, vec![request(1, 1, MIN_MDA_SECTORS, GIB / 512), InitAction::Done]);
    assert_eq!(result.unwrap().len(), 1);
}

#[test]
fn device_of_the_same_pool_is_passed_over() {
    let devices = vec![cand(1, GIB, DevOwnership::Ours(POOL), 1), unowned(2, 2)];
    let targets = filter_devs(&devices, POOL, false).unwrap();
    assert_eq!(
        targets,
        vec![InitTarget { device: dev(2), devnode: "/dev/sd2".into(), size: GIB, uuid: 2 }]
    );
    let batch = initialize(POOL, &devices, MIN_MDA_SECTORS, false).unwrap();
    let (log, result) = run(batch, &[], &[]);
    assert_eq!(log, vec![request(2, 2, MIN_MDA_SECTORS, GIB / 512), InitAction::Done]);
    let devs = result.unwrap();
    assert_eq!(devs.len(), 1);
    assert_eq!(devs[0].device(), dev(2));
}

#[test]
fn the_first_refused_candidate_decides() {
    let devices = vec![
        unowned(1, 1),
        Candidate { device: dev(2), info: Err(Cause::NoDevnode { device: dev(2) }), uuid: 2 },
        cand(3, 0, DevOwnership::Unowned, 3),
    ];
    let err = initialize(POOL, &devices, MIN_MDA_SECTORS, false).unwrap_err();
    assert_eq!(err.cause, Cause::NoDevnode { device: dev(2) });
    assert_eq!(err.kind(), ErrorKind::NotFound);
    let devices = vec![
        cand(3, 0, DevOwnership::Unowned, 3),
        Candidate { device: dev(2), info: Err(Cause::Io { device: dev(2), errno: 5 }), uuid: 2 },
    ];
    let err = initialize(POOL, &devices, MIN_MDA_SECTORS, false).unwrap_err();
    assert_eq!(err.cause, Cause::TooSmall { device: dev(3), size: 0 });
}

#[test]
fn metadata_area_must_be_in_range() {
    assert_eq!(MIN_MDA_SECTORS, 2040);
    assert!(validate_mda_size(2040).is_ok());
    assert!(validate_mda_size(2044).is_ok());
    assert!(validate_mda_size(MIN_DEV_SECTORS - 4).is_ok());
    for bad in [0, 4, 2036, 2041, 2042, MIN_DEV_SECTORS, MIN_DEV_SECTORS + 4, u64::MAX] {
        let err = validate_mda_size(bad).unwrap_err();
        assert_eq!(err.cause, Cause::BadMdaSize { mda_size: bad });
        assert_eq!(err.kind(), ErrorKind::InvalidInput);
        let err = initialize(POOL, &vec![unowned(1, 1)], bad, false).unwrap_err();
        assert_eq!(err.cause, Cause::BadMdaSize { mda_size: bad });
    }
    // The metadata area is judged before the candidates.
    let err = initialize(POOL, &vec![cand(1, 0, DevOwnership::Unowned, 1)], 1, false).unwrap_err();
    assert_eq!(err.cause, Cause::BadMdaSize { mda_size: 1 });
}

#[test]
fn uuid_in_use_fails_the_batch() {
    let err = initialize(POOL, &vec![unowned(1, 7), unowned(2, 8), unowned(3, 7)], MIN_MDA_SECTORS, false)
        .unwrap_err();
    assert_eq!(err.cause, Cause::UuidCollision { uuid: 7 });
    assert_eq!(err.kind(), ErrorKind::InvariantViolation);

    let batch = initialize(POOL, &vec![unowned(1, 7)], MIN_MDA_SECTORS, false).unwrap();
    let mgr = BlockDevMgr::new(run(batch, &[], &[]).1.unwrap());
    let err = mgr.add(POOL, &vec![unowned(2, 7)], false).unwrap_err();
    assert_eq!(err.cause, Cause::UuidCollision { uuid: 7 });
    assert_eq!(mgr.len(), 1);

    let err = stage(&vec![], &vec![3], POOL, &vec![unowned(1, 3)], MIN_MDA_SECTORS, false).unwrap_err();
    assert_eq!(err.cause, Cause::UuidCollision { uuid: 3 });
    // A refused candidate comes before a UUID that is in use.
    let err = initialize(
        POOL,
        &vec![unowned(1, 7), unowned(2, 7), cand(3, 0, DevOwnership::Unowned, 9)],
        MIN_MDA_SECTORS,
        false,
    )
    .unwrap_err();
    assert_eq!(err.kind(), ErrorKind::InvalidInput);
}

#[test]
fn no_device_is_taken_twice() {
    // Twice in one batch: the first occurrence stands.
    let batch =
        initialize(POOL, &vec![unowned(1, 1), unowned(2, 2), unowned(1, 3)], MIN_MDA_SECTORS, false)
            .unwrap();
    let (log, result) = run(batch, &[], &[]);
    assert_eq!(log.len(), 3);
    let mgr = BlockDevMgr::new(result.unwrap());
    assert_eq!(mgr.devices(), vec![dev(1), dev(2)]);
    assert_eq!(mgr.uuids(), vec![1, 2]);

    // Known to the pool already: nothing is written for it.
    let batch = mgr.add(POOL, &vec![unowned(2, 9), unowned(3, 10)], false).unwrap();
    let (log, result) = run(batch, &[], &[]);
    assert_eq!(log, vec![request(3, 10, MIN_MDA_SECTORS, GIB / 512), InitAction::Done]);
    assert_eq!(result.unwrap().len(), 1);

    // Known by its device alone, whatever is on it.
    let batch = stage(
        &vec![dev(1)],
        &vec![],
        POOL,
        &vec![unowned(1, 1), unowned(2, 2), unowned(2, 3)],
        MIN_MDA_SECTORS,
        false,
    )
    .unwrap();
    let (log, _) = run(batch, &[], &[]);
    assert_eq!(log, vec![request(2, 2, MIN_MDA_SECTORS, GIB / 512), InitAction::Done]);
}

#[test]
fn empty_batch_is_done_at_once() {
    let batch = initialize(POOL, &vec![], MIN_MDA_SECTORS, false).unwrap();
    assert!(batch.is_done());
    assert_eq!(batch.next_action(), InitAction::Done);
    assert_eq!(batch.finish().unwrap().len(), 0);
}

#[test]
fn headers_are_written_in_order() {
    let devices = vec![unowned(3, 30), cand(1, 3 * GIB + 511, DevOwnership::Unowned, 10), unowned(2, 20)];
    let batch = initialize(POOL, &devices, 4096, false).unwrap();
    assert!(!batch.is_done());
    let (log, result) = run(batch, &[], &[]);
    assert_eq!(
        log,
        vec![
            request(3, 30, 4096, GIB / 512),
            request(1, 10, 4096, 3 * GIB / 512),
            request(2, 20, 4096, GIB / 512),
            InitAction::Done,
        ]
    );
    let devs = result.unwrap();
    assert_eq!(devs.len(), 3);
    assert_eq!(devs[1].device(), dev(1));
    assert_eq!(devs[1].uuid(), 10);
    assert_eq!(devs[1].devnode(), "/dev/sd1");
    assert_eq!(devs[1].size(), 3 * GIB / 512);
    assert_eq!(devs[1].metadata_size(), 4096);
    assert_eq!(devs[1].available(), 3 * GIB / 512 - 4096);
    assert_eq!(devs[1].last_saved(), None);
}

#[test]
fn failed_write_is_rolled_back() {
    let devices = vec![unowned(1, 1), unowned(2, 2), unowned(3, 3), unowned(4, 4)];
    let batch = initialize(POOL, &devices, MIN_MDA_SECTORS, false).unwrap();
    let (log, result) = run(batch, &[dev(3)], &[]);
    assert_eq!(
        log,
        vec![
            request(1, 1, MIN_MDA_SECTORS, GIB / 512),
            request(2, 2, MIN_MDA_SECTORS, GIB / 512),
            request(3, 3, MIN_MDA_SECTORS, GIB / 512),
            InitAction::Wipe(dev(3)),
            InitAction::Wipe(dev(1)),
            InitAction::Wipe(dev(2)),
            InitAction::Done,
        ]
    );
    let err = result.unwrap_err();
    assert_eq!(err.cause, Cause::InitFailed { device: dev(3) });
    assert_eq!(err.kind(), ErrorKind::IoFailure);
    assert!(err.devices.is_empty());
}

#[test]
fn failed_wipes_are_listed_in_the_failure() {
    let devices = vec![unowned(1, 1), unowned(2, 2), unowned(3, 3)];
    let batch = initialize(POOL, &devices, MIN_MDA_SECTORS, false).unwrap();
    let (log, result) = run(batch, &[dev(3)], &[dev(3), dev(2)]);
    assert_eq!(log.len(), 7);
    let err = result.unwrap_err();
    assert_eq!(err.cause, Cause::InitFailed { device: dev(3) });
    assert_eq!(err.devices, vec![dev(3), dev(2)]);

    let batch = initialize(POOL, &devices, MIN_MDA_SECTORS, false).unwrap();
    let (log, result) = run(batch, &[dev(1)], &[dev(2)]);
    assert_eq!(
        log,
        vec![request(1, 1, MIN_MDA_SECTORS, GIB / 512), InitAction::Wipe(dev(1)), InitAction::Done]
    );
    let err = result.unwrap_err();
    assert_eq!(err.cause, Cause::InitFailed { device: dev(1) });
    assert!(err.devices.is_empty());
}

#[test]
fn a_batch_that_is_done_stays_done() {
    let mut batch = initialize(POOL, &vec![unowned(1, 1)], MIN_MDA_SECTORS, false).unwrap();
    batch.advance(true);
    assert!(batch.is_done());
    batch.advance(false);
    batch.advance(true);
    assert!(batch.is_done());
    assert_eq!(batch.next_action(), InitAction::Done);
    assert_eq!(batch.finish().unwrap().len(), 1);
}

#[test]
fn fresh_candidates_keep_what_they_are_given() {
    let info = DevInfo { devnode: "/dev/sdz".into(), size: GIB, ownership: DevOwnership::Theirs };
    let a = Candidate::new(dev(9), Ok(info));
    assert_eq!(a.device, dev(9));
    assert_eq!(
        a.info,
        Ok(DevInfo { devnode: "/dev/sdz".into(), size: GIB, ownership: DevOwnership::Theirs })
    );
    let b = Candidate::new(dev(10), Err(Cause::NoDevnode { device: dev(10) }));
    assert_eq!(b.info, Err(Cause::NoDevnode { device: dev(10) }));
    let batch = initialize(POOL, &vec![a], MIN_MDA_SECTORS, true).unwrap();
    assert!(!batch.is_done());
}

#[test]
fn every_cause_has_its_kind() {
    let d = dev(1);
    let table = [
        (Cause::Unresolved { path: 0, errno: 2 }, ErrorKind::IoFailure),
        (Cause::Io { device: d, errno: 5 }, ErrorKind::IoFailure),
        (Cause::NoDevnode { device: d }, ErrorKind::NotFound),
        (Cause::MissingDevice { uuid: 1 }, ErrorKind::NotFound),
        (Cause::BadMdaSize { mda_size: 1 }, ErrorKind::InvalidInput),
        (Cause::TooSmall { device: d, size: 1 }, ErrorKind::InvalidInput),
        (Cause::OwnedByOther { device: d }, ErrorKind::InvalidInput),
        (Cause::OwnedByPool { device: d, pool: 2 }, ErrorKind::InvalidInput),
        (Cause::UuidCollision { uuid: 1 }, ErrorKind::InvariantViolation),
        (Cause::InitFailed { device: d }, ErrorKind::IoFailure),
        (Cause::WipeFailed, ErrorKind::IoFailure),
        (Cause::SaveFailed, ErrorKind::IoFailure),
        (Cause::StaleTimestamp { device: d }, ErrorKind::UsageError),
        (Cause::MetadataTooLarge { device: d, len: 1, capacity: 0 }, ErrorKind::UsageError),
    ];
    for (cause, kind) in table {
        assert_eq!(cause.kind(), kind);
        let e = EngineError::new(cause);
        assert_eq!(e.kind(), kind);
        assert_eq!(e.cause, cause);
        assert!(e.devices.is_empty());
        assert_eq!(e.clone(), e);
    }
    let e = EngineError { cause: Cause::WipeFailed, devices: vec![dev(1), dev(2)] };
    assert_eq!(e.clone().devices, vec![dev(1), dev(2)]);
}
