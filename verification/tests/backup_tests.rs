use std::io::Read;

use visualoc_core::archive::build_archive;
use visualoc_core::backup::{
    route_part, validate_restore_upload, PartDest, RestoreAction, RestorePhase, RestoreSession,
    SnapshotAction, SnapshotPhase, SnapshotSession,
};
use visualoc_core::errors::Error;

#[test]
fn parts_route_by_extension() {
    assert_eq!(route_part("dump_file.sql"), PartDest::DumpRoot);
    assert_eq!(route_part("photo.png"), PartDest::Images);
    assert_eq!(route_part("photo.jpeg"), PartDest::Images);
    assert_eq!(route_part("clip.gif"), PartDest::Images);
    assert_eq!(route_part("script.sh"), PartDest::Rejected);
    assert_eq!(route_part("noextension"), PartDest::Rejected);
    assert_eq!(route_part("two.dots.png"), PartDest::Rejected);
}

#[test]
fn restore_without_dump_part_is_rejected() {
    // only image parts: a validation error, before anything destructive
    let names = vec!["a.png".to_string(), "b.jpg".to_string()];
    assert_eq!(validate_restore_upload(&names), Err(Error::Validation));
}

#[test]
fn restore_with_stray_part_is_rejected() {
    let names = vec!["dump_file.sql".to_string(), "evil.exe".to_string()];
    assert_eq!(validate_restore_upload(&names), Err(Error::Validation));
}

#[test]
fn complete_upload_is_accepted() {
    let names = vec![
        "dump_file.sql".to_string(),
        "item1.png".to_string(),
        "item2.webp".to_string(),
    ];
    assert!(validate_restore_upload(&names).is_ok());
}

#[test]
fn snapshot_happy_path_cleans_up() {
    let mut s = SnapshotSession::begin();
    loop {
        match s.next_action() {
            SnapshotAction::Finished(ok) => {
                assert!(ok);
                break;
            }
            _ => s.advance(true),
        }
    }
    assert_eq!(s.phase, SnapshotPhase::Finished);
    assert!(!s.workspace_exists);
    assert!(!s.archive_exists);
    assert!(!s.pinned);
}

#[test]
fn snapshot_failure_mid_backup_leaves_nothing_behind() {
    let mut s = SnapshotSession::begin();
    loop {
        match s.next_action() {
            SnapshotAction::Finished(ok) => {
                assert!(!ok);
                break;
            }
            // the dump tool fails; every other step succeeds
            SnapshotAction::RunDump => s.advance(false),
            _ => s.advance(true),
        }
    }
    assert_eq!(s.phase, SnapshotPhase::Finished);
    assert!(!s.workspace_exists);
    assert!(!s.archive_exists);
    assert!(!s.pinned);
}

#[test]
fn snapshot_archive_failure_still_removes_partial_archive() {
    let mut s = SnapshotSession::begin();
    loop {
        match s.next_action() {
            SnapshotAction::Finished(ok) => {
                assert!(!ok);
                break;
            }
            SnapshotAction::BuildArchive => s.advance(false),
            _ => s.advance(true),
        }
    }
    assert!(!s.archive_exists);
    assert!(!s.workspace_exists);
}

#[test]
fn restore_replay_failure_is_never_reported_as_success() {
    let mut s = RestoreSession::begin();
    s.advance(true); // drop
    s.advance(true); // recreate
    s.advance(true); // grant
    s.advance(false); // replay fails
    assert_eq!(s.phase, RestorePhase::Failed);
    assert_eq!(s.report(), Err(Error::ExternalTool));
}

#[test]
fn restore_success_path_reports_ok() {
    let mut s = RestoreSession::begin();
    assert_eq!(s.next_action(), RestoreAction::DropSchema);
    s.advance(true);
    assert_eq!(s.next_action(), RestoreAction::CreateSchema);
    s.advance(true);
    assert_eq!(s.next_action(), RestoreAction::GrantOwnership);
    s.advance(true);
    assert_eq!(s.next_action(), RestoreAction::RunReplay);
    s.advance(true);
    assert_eq!(s.next_action(), RestoreAction::Report(true));
    assert!(s.report().is_ok());
}

#[test]
fn restore_reset_failure_fails_closed() {
    let mut s = RestoreSession::begin();
    s.advance(false); // the schema drop itself fails
    assert_eq!(s.phase, RestorePhase::Failed);
    assert_eq!(s.report(), Err(Error::ExternalTool));
}

#[test]
fn built_archive_holds_the_entries() {
    let entries = vec![
        ("dump_file.sql".to_string(), b"CREATE TABLE items ();".to_vec()),
        ("images/item1.png".to_string(), vec![0x89, 0x50, 0x4E, 0x47, 1, 2, 3]),
    ];
    let bytes = build_archive(&entries).unwrap();
    assert!(bytes.len() > 0);
    assert_eq!(&bytes[0..2], b"PK");
    // read it back through the zip reader
    let mut zip = zip::ZipArchive::new(std::io::Cursor::new(bytes)).unwrap();
    assert_eq!(zip.len(), 2);
    let mut dump = String::new();
    zip.by_name("dump_file.sql").unwrap().read_to_string(&mut dump).unwrap();
    assert_eq!(dump, "CREATE TABLE items ();");
    let mut img = Vec::new();
    zip.by_name("images/item1.png").unwrap().read_to_end(&mut img).unwrap();
    assert_eq!(img, vec![0x89, 0x50, 0x4E, 0x47, 1, 2, 3]);
}

#[test]
fn packaging_is_a_function_of_the_entries() {
    let entries = vec![
        ("dump_file.sql".to_string(), b"SELECT 1;".to_vec()),
        ("images/a.png".to_string(), vec![1, 2, 3]),
    ];
    let once = build_archive(&entries).unwrap();
    let twice = build_archive(&entries).unwrap();
    assert_eq!(once, twice);
    let other = vec![("dump_file.sql".to_string(), b"SELECT 2;".to_vec())];
    assert_ne!(once, build_archive(&other).unwrap());
}

#[test]
fn empty_archive_is_still_a_zip() {
    let bytes = build_archive(&Vec::new()).unwrap();
    assert!(bytes.len() > 0);
    assert_eq!(&bytes[0..2], b"PK");
}
