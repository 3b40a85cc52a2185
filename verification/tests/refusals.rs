//! What refused and failed operations leave alone.
use deadlock_mods::addons_backup_manager::{AddonsBackupManager, RestoreStrategy};
use deadlock_mods::disk::{Body, Disk, Node};
use deadlock_mods::error::Error;
use deadlock_mods::manager::{Mod, ModManager};
use deadlock_mods::path::TreePath;
use deadlock_mods::shard::ShardIndex;
use deadlock_mods::vpk_manager::{MissingVpkPolicy, ShardAssignment, VpkManager};
use deadlock_mods::vpk_manifest::{ProfileVpkManifest, ProfileVpkManifestEntry};

const ADDONS: &str = "/g/game/citadel/addons";

fn path(text: &str) -> TreePath {
    TreePath::parse(text)
}

fn strings(v: &[&str]) -> Vec<String> {
    v.iter().map(|s| s.to_string()).collect()
}

fn disk(files: &[&str]) -> Disk {
    let mut entries = Vec::new();
    for (id, text) in files.iter().enumerate() {
        let whole = path(text);
        for n in 2..=whole.len() {
            let body = if n == whole.len() {
                Body::Blob { id: id as u64, size: 1 }
            } else {
                Body::Folder
            };
            entries.push((whole.first(n), Node { linked: false, body }));
        }
    }
    Disk::read(entries).unwrap()
}

fn shape(disk: &Disk) -> Vec<(String, Node)> {
    disk.below(&path("/"))
        .iter()
        .map(|p| (p.to_text(), disk.node(p).unwrap()))
        .collect()
}

fn manager() -> ModManager {
    let mut manager = ModManager::new(path("/store"));
    manager.game_path = Some(path("/g"));
    manager
}

#[test]
fn a_mod_is_never_enabled_in_part() {
    let before = disk(&["/g/game/citadel/addons/7_a.vpk"]);
    let mut work = before.duplicate();
    let failed = VpkManager::new().enable_vpks_in(
        &mut work,
        &path(ADDONS),
        &path("/g/game/citadel/addons2"),
        "7",
        &strings(&["7_a.vpk", "7_b.vpk"]),
    );
    assert_eq!(
        failed,
        Err(Error::ModInvalid(
            "Cannot enable mod 7 because source VPK files are missing: 7_b.vpk".to_string()
        ))
    );
    assert_eq!(shape(&work), shape(&before));
}

#[test]
fn a_full_directory_takes_no_more_files() {
    let mut files: Vec<String> =
        (1..=99).map(|n| format!("/g/game/citadel/addons2/pak{n:02}_dir.vpk")).collect();
    files.push("/g/game/citadel/addons/7_a.vpk".to_string());
    let files: Vec<&str> = files.iter().map(|f| f.as_str()).collect();
    let before = disk(&files);
    let mut work = before.duplicate();
    let failed = VpkManager::new().enable_vpks_in(
        &mut work,
        &path(ADDONS),
        &path("/g/game/citadel/addons2"),
        "7",
        &strings(&["7_a.vpk"]),
    );
    assert!(matches!(failed, Err(Error::ModInvalid(_))));
    assert_eq!(shape(&work), shape(&before));
}

#[test]
fn disabling_keeps_a_variant_that_is_there() {
    let before = disk(&["/g/game/citadel/addons/7_a.vpk", "/g/game/citadel/addons/pak01_dir.vpk"]);
    let mut work = before.duplicate();
    let off = VpkManager::new()
        .disable_vpks_in(
            &mut work,
            &path(ADDONS),
            &path(ADDONS),
            "7",
            &strings(&["pak01_dir.vpk"]),
            &strings(&["a.vpk"]),
            MissingVpkPolicy::Strict,
        )
        .unwrap();
    assert_eq!(off, strings(&["7_a.vpk"]));
    let kept = path(ADDONS).child("7_a.vpk");
    assert_eq!(work.node(&kept), before.node(&kept));
    assert!(!work.has(&path(ADDONS).child("pak01_dir.vpk")));
}

#[test]
fn disabling_that_fails_puts_the_files_back() {
    let before = disk(&["/g/game/citadel/addons/pak01_dir.vpk"]);
    let mut work = before.duplicate();
    let failed = VpkManager::new().disable_vpks_in(
        &mut work,
        &path(ADDONS),
        &path(ADDONS),
        "7",
        &strings(&["pak01_dir.vpk", "pak01_dir.vpk"]),
        &strings(&["a.vpk", "b.vpk"]),
        MissingVpkPolicy::Strict,
    );
    assert!(matches!(failed, Err(Error::Io(_))));
    assert_eq!(shape(&work), shape(&before));
}

#[test]
fn a_refused_reordering_moves_nothing() {
    let before = disk(&["/g/game/citadel/addons/pak05_dir.vpk"]);
    let mut work = before.duplicate();
    let wanted = vec![ShardAssignment {
        mod_id: "7".to_string(),
        shard: ShardIndex::first(),
        vpks: strings(&["pak05_dir.vpk", "pak06_dir.vpk"]),
    }];
    let failed = VpkManager::new().reorder_vpks_sharded(&mut work, &wanted, &path(ADDONS));
    match failed {
        Err(Error::ModInvalid(why)) => assert!(why.contains("enabled VPK files are missing")),
        other => panic!("{other:?}"),
    }
    assert_eq!(shape(&work), shape(&before));
}

#[test]
fn a_refused_removal_moves_nothing() {
    let before = disk(&["/g/game/citadel/addons/7_a.vpk"]);
    let mut work = before.duplicate();
    let failed = manager().remove_mod_vpks(&mut work, "../7", &Vec::new(), &None);
    match failed {
        Err(Error::InvalidInput(why)) => assert_eq!(why, "Invalid mod ID: ../7"),
        _ => panic!(),
    }
    assert_eq!(shape(&work), shape(&before));
}

#[test]
fn a_mod_stays_installed_where_the_mods_cannot_be_reordered() {
    let mut work = disk(&[
        "/g/game/citadel/addons/7_a.vpk",
        "/g/game/citadel/addons/pak01_dir.vpk",
    ]);
    let mut manifest = ProfileVpkManifest::empty();
    for id in ["1", "2"] {
        let mut entry = ProfileVpkManifestEntry::default();
        entry.enabled = true;
        entry.current_vpks = strings(&["pak01_dir.vpk"]);
        entry.original_vpk_names = strings(&["x.vpk"]);
        manifest.set_entry(id, entry);
    }
    manifest.save(&mut work, &path(ADDONS)).unwrap();
    let mut manager = manager();
    assert!(manager.reorder_all_mods_for_profile(&mut work, &None).is_err());
    let x = Mod {
        id: "7".to_string(),
        name: "seven".to_string(),
        is_map: false,
        installed_vpks: Vec::new(),
        file_tree: None,
        install_order: Some(0),
        original_vpk_names: Vec::new(),
    };
    let x = manager.install_mod(&mut work, x, &None).unwrap();
    assert_eq!(x.installed_vpks, strings(&["pak02_dir.vpk"]));
    assert!(work.has(&path(ADDONS).child("pak02_dir.vpk")));
}

#[test]
fn unfinished_backups_are_no_backups() {
    let mut work = disk(&[
        "/g/game/citadel/addons/pak01_dir.vpk",
        "/g/game/citadel/addons-backups/.addons-backup-x.staging-0/addons/a.vpk",
        "/g/game/citadel/addons-backups/addons-backup-y/addons/a.vpk",
    ]);
    let mut backups = AddonsBackupManager::new();
    backups.set_game_path(path("/g"));
    let names = |disk: &Disk| -> Vec<String> {
        backups.list_backups(disk, &Vec::new()).unwrap().into_iter().map(|b| b.file_name).collect()
    };
    assert_eq!(names(&work), strings(&["addons-backup-y"]));
    assert!(matches!(
        backups.restore_backup(&mut work, ".addons-backup-x.staging-0", RestoreStrategy::Replace),
        Err(Error::InvalidInput(_))
    ));
    let before = shape(&work);
    let failed = AddonsBackupManager::create_backup_async(
        &mut work,
        &backups.get_addons_path().unwrap(),
        &backups.get_backup_directory().unwrap(),
        "addons-backup-y".to_string(),
        0,
    );
    assert!(matches!(failed, Err(Error::BackupCreationFailed(_))));
    assert_eq!(shape(&work), before);
    assert_eq!(names(&work), strings(&["addons-backup-y"]));
}
