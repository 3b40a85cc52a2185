//! Operations on a file system that refuses changes.
use deadlock_mods::addons_backup_manager::{AddonsBackupManager, RestoreStrategy};
use deadlock_mods::disk::{Body, Disk, Node, Op};
use deadlock_mods::error::Error;
use deadlock_mods::manager::{Mod, ModManager};
use deadlock_mods::path::TreePath;
use deadlock_mods::profiles::delete_profile_folder;
use deadlock_mods::runner::{Runner, Task};
use deadlock_mods::vpk_manifest::ProfileVpkManifest;

const ADDONS: &str = "/g/game/citadel/addons";

fn path(text: &str) -> TreePath {
    TreePath::parse(text)
}

fn strings(v: &[&str]) -> Vec<String> {
    v.iter().map(|s| s.to_string()).collect()
}

fn disk(files: &[&str]) -> Disk {
    let mut entries = Vec::new();
    for (id, text) in files.iter().enumerate() {
        let whole = path(text);
        for n in 2..=whole.len() {
            let body = if n == whole.len() {
                Body::Blob { id: id as u64, size: 1 }
            } else {
                Body::Folder
            };
            entries.push((whole.first(n), Node { linked: false, body }));
        }
    }
    Disk::read(entries).unwrap()
}

fn shape(disk: &Disk) -> Vec<(String, Node)> {
    disk.below(&path("/"))
        .iter()
        .map(|p| (p.to_text(), disk.node(p).unwrap()))
        .collect()
}

fn manager() -> ModManager {
    let mut manager = ModManager::new(path("/store"));
    manager.game_path = Some(path("/g"));
    manager
}

fn fresh(id: &str, order: Option<u32>) -> Mod {
    Mod {
        id: id.to_string(),
        name: format!("mod {id}"),
        is_map: false,
        installed_vpks: Vec::new(),
        file_tree: None,
        install_order: order,
        original_vpk_names: Vec::new(),
    }
}

/// The tree after carrying out the notes of `work` where change number `refuse` is
/// refused, and what came of it.
fn carried(
    before: &Disk,
    work: &dyn Fn(&mut Disk) -> Result<(), Error>,
    refuse: usize,
) -> (Disk, Task) {
    let mut disk = before.duplicate();
    work(&mut disk).unwrap();
    let mut real = before.duplicate();
    let mut runner = Runner::new(before.duplicate(), disk.into_notes());
    let mut tried = 0;
    loop {
        match runner.next_task() {
            Task::Perform(op) => {
                let mark = matches!(op, Op::Settle | Op::Commit);
                let ok = mark || (tried != refuse && real.can(&op));
                if ok {
                    real.perform(op);
                }
                tried += 1;
                runner = runner.report(ok);
            }
            task => return (real, task),
        }
    }
}

fn count(before: &Disk, work: &dyn Fn(&mut Disk) -> Result<(), Error>) -> usize {
    let mut disk = before.duplicate();
    work(&mut disk).unwrap();
    disk.into_notes().len()
}

/// Whichever change is refused, either nothing is changed or what was asked for is
/// done; `done` says whether it is. Returns how often it was not.
fn refused_at_each_change(
    before: &Disk,
    work: &dyn Fn(&mut Disk) -> Result<(), Error>,
    done: &dyn Fn(&Disk) -> bool,
) -> usize {
    let total = count(before, work);
    let (real, task) = carried(before, work, total);
    assert!(matches!(task, Task::Done { missed: 0 }));
    assert!(done(&real));
    let mut undone = 0;
    for refuse in 0..total {
        let (real, task) = carried(before, work, refuse);
        match task {
            Task::RolledBack { whole, committed: false } => {
                assert!(whole, "{refuse}");
                assert_eq!(shape(&real), shape(before), "{refuse}");
                undone += 1;
            }
            task => assert!(done(&real), "{refuse}: {task:?}"),
        }
    }
    assert!(undone > 0);
    undone
}

fn two_installed() -> Disk {
    let mut disk = disk(&[
        "/g/game/citadel/addons/1_a.vpk",
        "/g/game/citadel/addons/2_a.vpk",
        "/g/game/citadel/addons/2_b.vpk",
        "/g/game/citadel/addons/3_a.vpk",
        "/store/x/y",
    ]);
    let mut manager = manager();
    manager.install_mod(&mut disk, fresh("1", Some(0)), &None).unwrap();
    manager.install_mod(&mut disk, fresh("2", Some(1)), &None).unwrap();
    let entries = shape(&disk);
    Disk::read(entries.into_iter().map(|(p, node)| (path(&p), node)).collect()).unwrap()
}

fn recorded(disk: &Disk, id: &str) -> Option<Vec<String>> {
    let mut disk = disk.duplicate();
    let manifest = ProfileVpkManifest::load(&mut disk, &path(ADDONS)).unwrap();
    manifest.entry(id).map(|entry| entry.current_vpks)
}

#[test]
fn installing_is_done_whole_or_not_at_all() {
    let before = two_installed();
    let work = |disk: &mut Disk| {
        manager().install_mod(disk, fresh("3", None), &None).map(|_| ())
    };
    refused_at_each_change(&before, &work, &|disk| {
        recorded(disk, "3") == Some(strings(&["pak04_dir.vpk"]))
            && disk.has(&path(ADDONS).child("pak04_dir.vpk"))
    });
}

#[test]
fn an_installed_mod_stays_where_reordering_is_refused() {
    let before = two_installed();
    let work = |disk: &mut Disk| {
        let mut manager = manager();
        manager.hydrate_mods_from_manifest(disk, &None)?;
        manager.install_mod(disk, fresh("3", Some(0)), &None).map(|_| ())
    };
    refused_at_each_change(&before, &work, &|disk| {
        let names = recorded(disk, "3").unwrap();
        names.len() == 1 && disk.has(&path(ADDONS).child(&names[0]))
    });
    let total = count(&before, &work);
    let kept = (0..total)
        .map(|refuse| carried(&before, &work, refuse).1)
        .filter(|task| matches!(task, Task::RolledBack { committed: true, .. }))
        .count();
    assert!(kept > 0);
}

#[test]
fn uninstalling_is_done_whole_or_not_at_all() {
    let before = two_installed();
    let work =
        |disk: &mut Disk| manager().uninstall_mod(disk, "2", &Vec::new(), &None).map(|_| ());
    refused_at_each_change(&before, &work, &|disk| {
        recorded(disk, "2") == Some(Vec::new()) && disk.has(&path(ADDONS).child("2_b.vpk"))
    });
}

#[test]
fn removing_is_done_whole_or_not_at_all() {
    let before = two_installed();
    let work =
        |disk: &mut Disk| manager().remove_mod_vpks(disk, "2", &Vec::new(), &None).map(|_| ());
    refused_at_each_change(&before, &work, &|disk| {
        recorded(disk, "2").is_none() && !disk.has(&path(ADDONS).child("pak02_dir.vpk"))
    });
}

#[test]
fn reordering_is_done_whole_or_not_at_all() {
    let before = two_installed();
    let work = |disk: &mut Disk| {
        let mut manager = manager();
        manager.hydrate_mods_from_manifest(disk, &None)?;
        let order = vec![("2".to_string(), 0), ("1".to_string(), 1)];
        manager.reorder_mods(disk, &order, &None).map(|_| ())
    };
    refused_at_each_change(&before, &work, &|disk| {
        recorded(disk, "2") == Some(strings(&["pak01_dir.vpk", "pak02_dir.vpk"]))
            && recorded(disk, "1") == Some(strings(&["pak03_dir.vpk"]))
    });
}

#[test]
fn restoring_is_done_whole_or_not_at_all() {
    let before = disk(&[
        "/g/game/citadel/addons/old.vpk",
        "/g/game/citadel/addons2/old.vpk",
        "/g/game/citadel/addons-backups/addons-backup-y/addons/new.vpk",
    ]);
    let mut backups = AddonsBackupManager::new();
    backups.set_game_path(path("/g"));
    let work = |disk: &mut Disk| {
        backups.restore_backup(disk, "addons-backup-y", RestoreStrategy::Replace)
    };
    refused_at_each_change(&before, &work, &|disk| {
        disk.has(&path(ADDONS).child("new.vpk"))
            && !disk.has(&path(ADDONS).child("old.vpk"))
            && !disk.has(&path("/g/game/citadel/addons2"))
    });
}

#[test]
fn a_profile_goes_from_all_shards_before_any_is_removed() {
    let before = disk(&[
        "/g/game/citadel/addons/profile_x/a.vpk",
        "/g/game/citadel/addons2/profile_x/b.vpk",
        "/g/game/citadel/addons5/profile_x/c.vpk",
    ]);
    let work = |disk: &mut Disk| delete_profile_folder(&manager(), disk, "profile_x").map(|_| ());
    let mut after = before.duplicate();
    work(&mut after).unwrap();
    let notes = after.into_notes();
    let moves = notes.iter().filter(|op| matches!(op, Op::MoveTree(_, _))).count();
    assert_eq!(moves, 3);
    let last_move = notes.iter().rposition(|op| matches!(op, Op::MoveTree(_, _))).unwrap();
    let first_removal = notes.iter().position(|op| matches!(op, Op::RemoveTree { .. })).unwrap();
    assert!(last_move < first_removal);
    for refuse in 0..=first_removal {
        let (real, task) = carried(&before, &work, refuse);
        match task {
            Task::RolledBack { whole: true, committed: false } => {
                assert_eq!(shape(&real), shape(&before), "{refuse}");
            }
            other => panic!("{refuse}: {other:?}"),
        }
    }
}

#[test]
fn a_shard_that_cannot_be_removed_comes_back_with_those_after_it() {
    let before = disk(&[
        "/g/game/citadel/addons/profile_x/a.vpk",
        "/g/game/citadel/addons2/profile_x/b.vpk",
        "/g/game/citadel/addons5/profile_x/c.vpk",
    ]);
    let work = |disk: &mut Disk| delete_profile_folder(&manager(), disk, "profile_x").map(|_| ());
    let (real, task) = carried(&before, &work, 4);
    assert!(matches!(task, Task::RolledBack { whole: false, committed: false }), "{task:?}");
    assert!(!real.has(&path("/g/game/citadel/addons/profile_x")));
    assert!(real.has(&path("/g/game/citadel/addons2/profile_x/b.vpk")));
    assert!(real.has(&path("/g/game/citadel/addons5/profile_x/c.vpk")));
    assert_eq!(real.names(&path("/g/game/citadel/addons")), Vec::<String>::new());
}

#[test]
fn a_backup_that_cannot_be_pruned_stops_no_other() {
    let before = disk(&[
        "/g/game/citadel/addons-backups/addons-backup-2024-03-01_00-00-00/addons/a.vpk",
        "/g/game/citadel/addons-backups/addons-backup-2024-02-01_00-00-00/addons/a.vpk",
        "/g/game/citadel/addons-backups/addons-backup-2024-01-01_00-00-00/addons/a.vpk",
    ]);
    let mut backups = AddonsBackupManager::new();
    backups.set_game_path(path("/g"));
    let work = |disk: &mut Disk| backups.prune_old_backups(disk, 1, &Vec::new()).map(|_| ());
    let (real, task) = carried(&before, &work, 0);
    assert!(matches!(task, Task::Done { missed: 1 }), "{task:?}");
    let left = backups.list_backups(&real, &Vec::new()).unwrap();
    assert_eq!(left.len(), 2);
}
