use meta_hybrid::config::Config;
use meta_hybrid::granary::{decimal_string, latest_silo, silo_id, silos_to_prune, sort_newest_first, Silo, MAX_AUTO_SILOS};
use meta_hybrid::hymofs::{is_hymofs_active, HymoFs, HymoFsStatus};
use meta_hybrid::ratoon::{engage_step, next_boot_count, parse_u8, read_counter, rollback_due};
use meta_hybrid::state::RuntimeState;
use meta_hybrid::storage::{storage_next, usage_percent, StorageAction, StorageError, StorageHandle, StorageMode, StorageStep};
use meta_hybrid::umount::UmountHints;

fn silo(ts: u64) -> Silo {
    Silo::new(Config::default(), "Boot Backup".to_string(), "Automatic Pre-Mount".to_string(), ts)
}

#[test]
fn silo_ids_name_the_time() {
    assert_eq!(silo_id(1700000000), "silo_1700000000");
    assert_eq!(silo_id(0), "silo_0");
    assert_eq!(decimal_string(u64::MAX), u64::MAX.to_string());
    let s = silo(42);
    assert_eq!(s.id, "silo_42");
    assert_eq!(s.timestamp, 42);
    assert_eq!(s.label, "Boot Backup");
}

#[test]
fn granary_keeps_newest_five() {
    let silos: Vec<Silo> = [5u64, 1, 7, 3, 9, 2, 8].iter().map(|t| silo(*t)).collect();
    let sorted = sort_newest_first(silos);
    let ts: Vec<u64> = sorted.iter().map(|s| s.timestamp).collect();
    assert_eq!(ts, vec![9, 8, 7, 5, 3, 2, 1]);
    let pruned = silos_to_prune(&sorted);
    assert_eq!(pruned, vec!["silo_2".to_string(), "silo_1".to_string()]);
    assert_eq!(sorted.len() - pruned.len(), MAX_AUTO_SILOS);
    for w in sorted[..MAX_AUTO_SILOS].windows(2) {
        assert!(w[0].timestamp > w[1].timestamp);
    }
    assert_eq!(latest_silo(&sorted).unwrap().id, "silo_9");
    assert!(latest_silo(&Vec::new()).is_none());
    assert!(silos_to_prune(&sort_newest_first(vec![silo(1), silo(2)])).is_empty());
}

#[test]
fn ratoon_counter_reads() {
    assert_eq!(read_counter("2\n"), 2);
    assert_eq!(read_counter(" +7 "), 7);
    assert_eq!(read_counter("abc"), 0);
    assert_eq!(read_counter("256"), 0);
    assert_eq!(read_counter(""), 0);
    assert_eq!(parse_u8("255"), Some(255));
    assert_eq!(parse_u8("-1"), None);
    assert_eq!(parse_u8("+"), None);
}

#[test]
fn ratoon_engage_counts_up() {
    assert_eq!(next_boot_count(None), 1);
    assert_eq!(next_boot_count(Some(4)), 5);
    assert_eq!(next_boot_count(Some(255)), 255);
    assert!(!rollback_due(2));
    assert!(rollback_due(3));
}

#[test]
fn ratoon_triggers_restore_on_third_boot() {
    let mut counter: Option<u8> = None;
    let mut disabled = false;
    for _ in 0..3 {
        let (c, d) = engage_step(counter, true);
        counter = c;
        disabled |= d;
    }
    assert_eq!(counter, None);
    assert!(!disabled);
    assert_eq!(engage_step(None, false), (Some(1), false));
    assert_eq!(engage_step(Some(1), false), (Some(2), false));
    assert_eq!(engage_step(Some(2), false), (Some(3), true));
    assert_eq!(engage_step(Some(2), true), (None, false));
}

#[test]
fn hymofs_status_from_probe() {
    assert_eq!(HymoFs::check_status(false, Some(5)), HymoFsStatus::NotPresent);
    assert_eq!(HymoFs::check_status(true, None), HymoFsStatus::NotPresent);
    assert_eq!(HymoFs::check_status(true, Some(4)), HymoFsStatus::ProtocolMismatch);
    assert_eq!(HymoFs::check_status(true, Some(5)), HymoFsStatus::Available);
    assert!(HymoFs::is_available(true, Some(5)));
    assert!(!is_hymofs_active(true, Some(6)));
}

#[test]
fn umount_hints_collect_and_cancel() {
    let mut hints = UmountHints::new();
    hints.send_unmountable("/system".to_string(), false, true, "/debug_ramdisk");
    hints.send_unmountable("/vendor".to_string(), true, true, "/dev/tmp");
    assert_eq!(hints.commit(), vec!["/system".to_string(), "/vendor".to_string()]);
    assert!(hints.commit().is_empty());
    hints.send_unmountable("/odm".to_string(), true, true, " /debug_ramdisk\n");
    assert!(hints.canceled);
    hints.send_unmountable("/product".to_string(), false, false, "");
    assert!(hints.commit().is_empty());
}

#[test]
fn storage_selector_paths() {
    assert_eq!(storage_next(StorageStep::Begin, true, false), StorageAction::Run(StorageStep::MountTmpfs));
    assert_eq!(storage_next(StorageStep::Begin, true, true), StorageAction::Run(StorageStep::CheckImage));
    assert_eq!(storage_next(StorageStep::MountTmpfs, true, false), StorageAction::Done(StorageMode::Tmpfs));
    assert_eq!(storage_next(StorageStep::MountTmpfs, false, false), StorageAction::Run(StorageStep::CheckImage));
    assert_eq!(storage_next(StorageStep::CheckImage, false, false), StorageAction::Run(StorageStep::CreateImage));
    assert_eq!(
        storage_next(StorageStep::CreateImage, false, false),
        StorageAction::Fail(StorageError::ImageMissingAndCreateFailed)
    );
    assert_eq!(storage_next(StorageStep::MountImage, false, false), StorageAction::Run(StorageStep::RepairImage));
    assert_eq!(storage_next(StorageStep::RepairImage, true, false), StorageAction::Run(StorageStep::RemountImage));
    assert_eq!(
        storage_next(StorageStep::RemountImage, false, false),
        StorageAction::Fail(StorageError::ImageCorruptAndUnrecoverable)
    );
    assert_eq!(storage_next(StorageStep::RemountImage, true, false), StorageAction::Done(StorageMode::Ext4));
    let h = StorageHandle::new("/mnt/work".to_string(), StorageMode::Ext4);
    assert_eq!(h.mode, "ext4");
    assert_eq!(usage_percent(0, 0), 0);
    assert_eq!(usage_percent(200, 50), 75);
    assert_eq!(usage_percent(3, 0), 100);
}

#[test]
fn runtime_state_records_boot() {
    let s = RuntimeState::new(
        10,
        99,
        "tmpfs".to_string(),
        "/mnt/work".to_string(),
        vec!["a".to_string()],
        vec!["b".to_string()],
        true,
        vec!["system".to_string()],
    );
    assert_eq!(s.timestamp, 10);
    assert_eq!(s.pid, 99);
    assert_eq!(s.storage_mode, "tmpfs");
    assert_eq!(s.magic_modules, vec!["b".to_string()]);
    let e = RuntimeState::empty();
    assert!(e.overlay_modules.is_empty() && e.storage_mode.is_empty());
}
