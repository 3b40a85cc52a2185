//! Backups of the addon folders.
use deadlock_mods::addons_backup_manager::{
    can_count_backups, copy_progress, AddonsBackupManager, RestoreStrategy,
};
use deadlock_mods::backup_name::{backup_filename, parse_backup_filename};
use deadlock_mods::disk::{Body, Disk, Node};
use deadlock_mods::error::Error;
use deadlock_mods::path::TreePath;
use deadlock_mods::shard::{all_shards, ShardIndex};
use deadlock_mods::tree_copy::{
    can_count_below, can_count_roots, copy_tree, stats_below, stats_of_roots,
};
use deadlock_mods::vpk_manifest::ProfileVpkManifest;

const CITADEL: &str = "/t/game/citadel";

fn path(text: &str) -> TreePath {
    TreePath::parse(text)
}

fn strings(v: &[&str]) -> Vec<String> {
    v.iter().map(|s| s.to_string()).collect()
}

struct Tree {
    entries: Vec<(TreePath, Node)>,
    contents: Vec<String>,
}

impl Tree {
    fn new() -> Tree {
        Tree { entries: Vec::new(), contents: Vec::new() }
    }

    fn dir(&mut self, text: &str) {
        let whole = path(text);
        for n in 2..=whole.len() {
            self.entries.push((whole.first(n), Node { linked: false, body: Body::Folder }));
        }
    }

    fn put(&mut self, text: &str, linked: bool, body: Body) {
        let whole = path(text);
        self.dir(&whole.parent().unwrap().to_text());
        self.entries.push((whole, Node { linked, body }));
    }

    fn file(&mut self, text: &str, contents: &str) {
        self.contents.push(contents.to_string());
        let id = self.contents.len() as u64 - 1;
        self.put(text, false, Body::Blob { id, size: contents.len() as u64 });
    }

    fn read(self) -> (Disk, Vec<String>) {
        (Disk::read(self.entries).unwrap(), self.contents)
    }
}

fn contents<'a>(disk: &Disk, all: &'a [String], text: &str) -> &'a str {
    match disk.node(&path(text)).unwrap().body {
        Body::Blob { id, .. } => &all[id as usize],
        other => panic!("{text}: {other:?}"),
    }
}

fn two_shard_manifest() -> ProfileVpkManifest {
    let mut manifest = ProfileVpkManifest::default();
    let pak = strings(&["pak01_dir.vpk"]);
    manifest.mark_enabled(
        "on_base",
        pak.clone(),
        strings(&["base.vpk"]),
        Some(0),
        ShardIndex::first(),
    );
    manifest.mark_enabled(
        "on_shard_two",
        pak,
        strings(&["overflow.vpk"]),
        Some(1),
        ShardIndex::new(2).unwrap(),
    );
    manifest
}

fn sharded_citadel() -> Tree {
    let mut tree = Tree::new();
    tree.put(
        "/t/game/citadel/addons/profile_x/.dmm.json",
        false,
        Body::Manifest { manifest: two_shard_manifest(), size: 400 },
    );
    tree.file("/t/game/citadel/addons/profile_x/pak01_dir.vpk", "base vpk");
    tree.file("/t/game/citadel/addons/profile_x/some_mod_disabled.vpk", "disabled vpk");
    tree.file("/t/game/citadel/addons2/profile_x/pak01_dir.vpk", "overflow vpk");
    tree
}

fn copy_all_shards(disk: &mut Disk, destination: &TreePath) {
    for root in all_shards().iter().map(|s| s.root_name()) {
        let source = path(CITADEL).child(&root);
        if disk.has(&source) {
            copy_tree(disk, &source, &destination.child(&root)).unwrap();
        }
    }
}

fn manager() -> AddonsBackupManager {
    let mut manager = AddonsBackupManager::new();
    manager.set_game_path(path("/t"));
    manager
}

fn back_up(disk: &mut Disk, name: &str) -> Result<String, Error> {
    assert!(can_count_roots(disk, &path(CITADEL)));
    AddonsBackupManager::create_backup_async(
        disk,
        &manager().get_addons_path().unwrap(),
        &manager().get_backup_directory().unwrap(),
        name.to_string(),
        1000,
    )
    .map(|b| {
        assert_eq!(b.created_at, 1000);
        assert_eq!(b.addons_count, 3);
        assert_eq!(b.file_size, 400 + 8 + 12 + 12);
        b.file_path
    })
}

#[test]
fn backup_captures_every_shard_and_validates() {
    let (mut disk, all) = sharded_citadel().read();
    let stats = stats_of_roots(&disk, &path(CITADEL));
    let snapshot = path("/t/snapshot");
    copy_all_shards(&mut disk, &snapshot);

    assert_eq!(stats.vpks, 3);
    assert_eq!(
        contents(&disk, &all, "/t/snapshot/addons/profile_x/pak01_dir.vpk"),
        "base vpk"
    );
    assert_eq!(
        contents(&disk, &all, "/t/snapshot/addons2/profile_x/pak01_dir.vpk"),
        "overflow vpk"
    );
    assert!(disk.is_file(&path("/t/snapshot/addons/profile_x/some_mod_disabled.vpk")));

    AddonsBackupManager::validate_snapshot(&mut disk, &snapshot).unwrap();
}

#[test]
fn validation_rejects_a_snapshot_missing_an_overflow_shard() {
    let (mut disk, _) = sharded_citadel().read();
    let snapshot = path("/t/snapshot");
    copy_tree(&mut disk, &path(CITADEL).child("addons"), &snapshot.child("addons")).unwrap();

    let error = AddonsBackupManager::validate_snapshot(&mut disk, &snapshot).unwrap_err();
    assert!(error.message().contains("references missing VPKs"));
}

#[test]
fn backup_skips_internal_staging_artifacts() {
    let mut tree = sharded_citadel();
    let base = "/t/game/citadel/addons/profile_x";
    tree.file(&format!("{base}/.dmm-reorder/s1__pak01_dir.vpk.pending"), "staged");
    tree.file(&format!("{base}/.dmm-clear/s1__pak02_dir.vpk.pending"), "staged");
    tree.file(&format!("{base}/.dmm-update-123/s1__pak03_dir.vpk.pending"), "staged");
    let (mut disk, _) = tree.read();
    copy_all_shards(&mut disk, &path("/t/snapshot"));

    let restored = path("/t/snapshot/addons/profile_x");
    assert!(!disk.has(&restored.child(".dmm-reorder")));
    assert!(!disk.has(&restored.child(".dmm-clear")));
    assert!(!disk.has(&restored.child(".dmm-update-123")));
    assert!(disk.is_file(&restored.child("pak01_dir.vpk")));
}

#[test]
fn backup_canonicalizes_an_orphaned_temp_manifest() {
    let mut manifest = ProfileVpkManifest::default();
    manifest.mark_enabled(
        "123",
        strings(&["pak01_dir.vpk"]),
        strings(&["m.vpk"]),
        Some(0),
        ShardIndex::first(),
    );
    let mut tree = Tree::new();
    tree.put(
        "/t/game/citadel/addons/profile_x/.dmm.json.tmp",
        false,
        Body::Manifest { manifest, size: 100 },
    );
    tree.file("/t/game/citadel/addons/profile_x/pak01_dir.vpk", "vpk");
    let (mut disk, _) = tree.read();
    let snapshot = path("/t/snapshot");
    copy_tree(&mut disk, &path(CITADEL).child("addons"), &snapshot.child("addons")).unwrap();

    let restored = path("/t/snapshot/addons/profile_x");
    assert!(disk.is_file(&restored.child(".dmm.json")));
    assert!(!disk.has(&restored.child(".dmm.json.tmp")));
    AddonsBackupManager::validate_snapshot(&mut disk, &snapshot).unwrap();
}

#[test]
fn links_are_neither_copied_nor_counted() {
    let mut tree = sharded_citadel();
    tree.put(
        "/t/game/citadel/addons/profile_x/link.vpk",
        true,
        Body::Blob { id: 0, size: 1000 },
    );
    let (mut disk, _) = tree.read();
    assert_eq!(stats_of_roots(&disk, &path(CITADEL)).vpks, 3);
    let stats = stats_below(&disk, &path("/t/game/citadel/addons"));
    assert_eq!((stats.bytes, stats.files, stats.vpks), (420, 3, 2));
    copy_all_shards(&mut disk, &path("/t/snapshot"));
    assert!(!disk.has(&path("/t/snapshot/addons/profile_x/link.vpk")));
}

#[test]
fn a_backup_gives_back_what_was_there() {
    let (mut disk, all) = sharded_citadel().read();
    let made = back_up(&mut disk, "addons-backup-2024-05-01_10-20-30").unwrap();
    assert_eq!(made, "/t/game/citadel/addons-backups/addons-backup-2024-05-01_10-20-30");

    // Everything is lost afterwards.
    disk.remove_dir_all(&path("/t/game/citadel/addons")).unwrap();
    disk.remove_dir_all(&path("/t/game/citadel/addons2")).unwrap();

    manager()
        .restore_backup(&mut disk, "addons-backup-2024-05-01_10-20-30", RestoreStrategy::Replace)
        .unwrap();

    assert_eq!(
        contents(&disk, &all, "/t/game/citadel/addons/profile_x/pak01_dir.vpk"),
        "base vpk"
    );
    assert_eq!(
        contents(&disk, &all, "/t/game/citadel/addons2/profile_x/pak01_dir.vpk"),
        "overflow vpk"
    );
    assert!(disk.is_file(&path("/t/game/citadel/addons/profile_x/some_mod_disabled.vpk")));
    assert!(!disk.has(&path("/t/game/citadel/.dmm-restore-staging")));
}

#[test]
fn replacing_drops_and_merging_keeps_what_is_new() {
    let name = "addons-backup-2024-05-01_10-20-30";
    let added = path("/t/game/citadel/addons3/profile_z/new.vpk");

    let (mut disk, _) = sharded_citadel().read();
    back_up(&mut disk, name).unwrap();
    disk.create_dir_all(&added.parent().unwrap()).unwrap();
    disk.copy_file(&path("/t/game/citadel/addons/profile_x/pak01_dir.vpk"), &added).unwrap();
    manager().restore_backup(&mut disk, name, RestoreStrategy::Merge).unwrap();
    assert!(disk.is_file(&added));

    manager().restore_backup(&mut disk, name, RestoreStrategy::Replace).unwrap();
    assert!(!disk.has(&added));
}

#[test]
fn an_inconsistent_profile_is_not_backed_up() {
    let mut tree = Tree::new();
    tree.put(
        "/t/game/citadel/addons/profile_x/.dmm.json",
        false,
        Body::Manifest { manifest: two_shard_manifest(), size: 400 },
    );
    let (mut disk, _) = tree.read();
    let error = back_up(&mut disk, "addons-backup-x").unwrap_err();
    assert!(error.message().starts_with("Created backup is inconsistent: "), "{error:?}");
    assert_eq!(disk.names(&path("/t/game/citadel/addons-backups")).len(), 0);
}

#[test]
fn an_inconsistent_backup_is_not_restored() {
    let mut tree = sharded_citadel();
    tree.put(
        "/t/game/citadel/addons-backups/addons-backup-bad/addons/.dmm.json",
        false,
        Body::Manifest { manifest: two_shard_manifest(), size: 400 },
    );
    let (mut disk, all) = tree.read();
    let error = manager()
        .restore_backup(&mut disk, "addons-backup-bad", RestoreStrategy::Replace)
        .unwrap_err();
    assert!(error.message().contains("references missing VPKs"));
    assert_eq!(
        contents(&disk, &all, "/t/game/citadel/addons/profile_x/pak01_dir.vpk"),
        "base vpk"
    );
    assert!(!disk.has(&path("/t/game/citadel/.dmm-restore-staging")));
}

#[test]
fn old_backups_without_shards_are_restored_whole() {
    let mut tree = Tree::new();
    tree.file("/t/game/citadel/addons/now.vpk", "now");
    tree.file("/t/game/citadel/addons-backups/addons-backup-old/then.vpk", "then");
    let (mut disk, _) = tree.read();
    manager().restore_backup(&mut disk, "addons-backup-old", RestoreStrategy::Replace).unwrap();
    assert!(disk.is_file(&path("/t/game/citadel/addons/then.vpk")));
    assert!(!disk.has(&path("/t/game/citadel/addons/now.vpk")));
}

#[test]
fn old_backups_are_merged_into_the_first_root() {
    let mut tree = Tree::new();
    tree.file("/t/game/citadel/addons/now.vpk", "now");
    tree.file("/t/game/citadel/addons/both.vpk", "new");
    tree.file("/t/game/citadel/addons2/over.vpk", "over");
    tree.file("/t/game/citadel/addons-backups/addons-backup-old/then.vpk", "then");
    tree.file("/t/game/citadel/addons-backups/addons-backup-old/both.vpk", "old");
    let (mut disk, all) = tree.read();
    manager().restore_backup(&mut disk, "addons-backup-old", RestoreStrategy::Merge).unwrap();
    assert_eq!(contents(&disk, &all, "/t/game/citadel/addons/now.vpk"), "now");
    assert_eq!(contents(&disk, &all, "/t/game/citadel/addons/then.vpk"), "then");
    assert_eq!(contents(&disk, &all, "/t/game/citadel/addons/both.vpk"), "old");
    assert_eq!(contents(&disk, &all, "/t/game/citadel/addons2/over.vpk"), "over");
}

#[test]
fn refusals_name_their_reason() {
    let (mut disk, _) = sharded_citadel().read();
    back_up(&mut disk, "addons-backup-a").unwrap();
    let twice = back_up(&mut disk, "addons-backup-a").unwrap_err();
    assert_eq!(
        twice.message(),
        "Backup already exists: /t/game/citadel/addons-backups/addons-backup-a"
    );
    let none = manager()
        .restore_backup(&mut disk, "addons-backup-b", RestoreStrategy::Replace)
        .unwrap_err();
    assert_eq!(none, Error::BackupNotFound);
    for name in ["addons-backup-../x", "addons-backup-a/b", "addons-backup-a\\b", "other"] {
        let error = manager().delete_backup(&mut disk, name).unwrap_err();
        assert_eq!(error, Error::InvalidInput("Invalid addons backup name".to_string()));
    }
    assert_eq!(AddonsBackupManager::new().get_addons_path(), Err(Error::GamePathNotSet));

    disk.create_dir_all(&path("/t/game/citadel/.dmm-restore-staging")).unwrap();
    let stuck = manager()
        .restore_backup(&mut disk, "addons-backup-a", RestoreStrategy::Merge)
        .unwrap_err();
    assert_eq!(
        stuck.message(),
        "A previous restore staging directory still exists at /t/game/citadel/.dmm-restore-staging"
    );

    let mut empty = Tree::new();
    empty.dir("/t/game/citadel");
    let (mut disk, _) = empty.read();
    let missing = back_up(&mut disk, "addons-backup-a").unwrap_err();
    assert_eq!(
        missing,
        Error::BackupCreationFailed("Addons folder does not exist".to_string())
    );
}

fn three_backups() -> Disk {
    let mut tree = sharded_citadel();
    for name in [
        "addons-backup-2024-01-01_00-00-00",
        "addons-backup-2024-03-01_00-00-00",
        "addons-backup-odd",
        "other",
    ] {
        tree.file(&format!("/t/game/citadel/addons-backups/{name}/addons/a.VPK"), "12345");
    }
    tree.read().0
}

#[test]
fn totals_that_do_not_fit_are_told() {
    let mut tree = Tree::new();
    let dir = "/t/game/citadel/addons-backups";
    tree.put(&format!("{dir}/addons-backup-a/addons/a"), false, Body::Blob { id: 1, size: u64::MAX });
    tree.put(&format!("{dir}/addons-backup-b/addons/a"), false, Body::Blob { id: 2, size: u64::MAX });
    tree.put(&format!("{dir}/addons-backup-b/addons/b"), false, Body::Blob { id: 3, size: 1 });
    let (disk, _) = tree.read();
    let dir = path(dir);
    let (a, b) = (dir.child("addons-backup-a"), dir.child("addons-backup-b"));
    assert!(can_count_below(&disk, &a));
    assert_eq!(stats_below(&disk, &a).bytes, u64::MAX);
    assert!(!can_count_below(&disk, &b));
    assert!(!can_count_roots(&disk, &b));
    assert!(!can_count_backups(&disk, &dir));
    assert!(can_count_backups(&disk, &a));
}

#[test]
fn backups_are_listed_newest_first() {
    let disk = three_backups();
    let times = vec![("addons-backup-odd".to_string(), 1_707_000_000)];
    let list = manager().list_backups(&disk, &times).unwrap();
    let names: Vec<&str> = list.iter().map(|b| b.file_name.as_str()).collect();
    assert_eq!(
        names,
        ["addons-backup-2024-03-01_00-00-00", "addons-backup-odd", "addons-backup-2024-01-01_00-00-00"]
    );
    assert_eq!(list[2].created_at, 1_704_067_200);
    assert_eq!(list[0].file_size, 5);
    assert_eq!(list[0].addons_count, 1);
    let info = manager().get_backup_info(&disk, "addons-backup-odd", 77).unwrap();
    assert_eq!(info.created_at, 77);
    assert_eq!(
        manager().get_backup_info(&disk, "addons-backup-none", 0).unwrap_err(),
        Error::BackupNotFound
    );
}

#[test]
fn pruning_keeps_the_newest() {
    let mut disk = three_backups();
    let times = vec![("addons-backup-odd".to_string(), 1_707_000_000)];
    assert_eq!(manager().prune_old_backups(&mut disk, 0, &times), Ok(0));
    assert_eq!(manager().prune_old_backups(&mut disk, 3, &times), Ok(0));
    assert_eq!(manager().prune_old_backups(&mut disk, 1, &times), Ok(2));
    let left = manager().list_backups(&disk, &times).unwrap();
    assert_eq!(left.len(), 1);
    assert_eq!(left[0].file_name, "addons-backup-2024-03-01_00-00-00");
    assert!(disk.has(&path("/t/game/citadel/addons-backups/other")));
}

#[test]
fn names_tell_their_time() {
    assert_eq!(parse_backup_filename("addons-backup-1970-01-01_00-00-00"), Some(0));
    assert_eq!(parse_backup_filename("addons-backup-2024-02-29_12-34-56"), Some(1_709_210_096));
    assert_eq!(parse_backup_filename("addons-backup-2024-02-29_12-34-56.7z"), Some(1_709_210_096));
    assert_eq!(parse_backup_filename("addons-backup-1969-12-31_23-59-59"), Some(u64::MAX));
    assert_eq!(parse_backup_filename("addons-backup-2023-02-29_12-34-56"), None);
    assert_eq!(parse_backup_filename("addons-backup-2024-02-29_24-00-00"), None);
    assert_eq!(parse_backup_filename("addons-backup-2024-02-29"), None);
    assert_eq!(parse_backup_filename("addons-backup-x"), None);
    assert_eq!(parse_backup_filename("backup-2024-02-29_12-34-56"), None);
    assert_eq!(backup_filename("2024-02-29_12-34-56"), "addons-backup-2024-02-29_12-34-56");
}

#[test]
fn a_name_made_now_tells_a_time() {
    let name = manager().generate_backup_filename();
    assert_eq!(name.len(), "addons-backup-2024-02-29_12-34-56".len());
    assert!(manager().parse_backup_filename(&name).is_some());
    let (disk, _) = sharded_citadel().read();
    assert!(matches!(manager().get_backup_info(&disk, &name, 0), Err(Error::BackupNotFound)));
    let stamp = name.strip_prefix("addons-backup-").unwrap();
    for (i, c) in stamp.chars().enumerate() {
        match i {
            4 | 7 | 13 | 16 => assert_eq!(c, '-'),
            10 => assert_eq!(c, '_'),
            _ => assert!(c.is_ascii_digit(), "{name}"),
        }
    }
}

#[test]
fn strategies_are_named_in_any_case() {
    assert_eq!(RestoreStrategy::from_str("Replace"), Ok(RestoreStrategy::Replace));
    assert_eq!(RestoreStrategy::from_str("MERGE"), Ok(RestoreStrategy::Merge));
    assert_eq!(
        RestoreStrategy::from_str("Copy").unwrap_err().message(),
        "Invalid restore strategy: Copy. Must be 'replace' or 'merge'"
    );
}

#[test]
fn progress_runs_from_twenty_to_ninety() {
    assert_eq!(copy_progress(0, 0), 20);
    assert_eq!(copy_progress(1, 3), 43);
    assert_eq!(copy_progress(3, 3), 90);
}
