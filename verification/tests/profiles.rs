//! Profiles: folders, files, imports and the files that heroes are looked for in.
use deadlock_mods::disk::{Body, Disk, Node};
use deadlock_mods::error::Error;
use deadlock_mods::hero_files::{
    collect_detection_items, collect_game_vpks_for_mod, profile_bases, ModDetectionRequest,
};
use deadlock_mods::manager::ModManager;
use deadlock_mods::path::TreePath;
use deadlock_mods::profiles::import::{
    hexadecimal, import_profile_batch, imported_profile_id, prepare_import, ImportMod, Watch,
    WatchAction, WatchEvent,
};
use deadlock_mods::profiles::vpks::{
    authorize_profile_vpk, check_addons_exist, delete_profile_vpk, get_profile_installed_vpks,
    get_shard_diagnostics, is_vpk_filename, locate_profile_vpk, show_mod_in_game,
    show_mod_in_store, Shown,
};
use deadlock_mods::profiles::{
    create_profile_folder, default_seed_shard, delete_profile_folder, folder_char_of,
    get_profile_vpk_manifest, list_profile_folders, name_profile_folder, resync_profile_shards,
    seed_profile_vpk_manifest_entries, switch_profile, trim_marks, SeedManifestEntry,
};
use deadlock_mods::shard::{is_valid_search_path, ShardIndex};
use deadlock_mods::vpk_manifest::ProfileVpkManifest;

const ADDONS: &str = "/g/game/citadel/addons";

fn path(text: &str) -> TreePath {
    TreePath::parse(text)
}

fn addons() -> TreePath {
    path(ADDONS)
}

fn strings(v: &[&str]) -> Vec<String> {
    v.iter().map(|s| s.to_string()).collect()
}

fn disk(files: &[&str], dirs: &[&str]) -> Disk {
    let mut entries = Vec::new();
    let all = files.iter().map(|f| (f, true)).chain(dirs.iter().map(|d| (d, false)));
    for (text, is_file) in all {
        let whole = path(text);
        for n in 2..=whole.len() {
            let body = if is_file && n == whole.len() {
                Body::Blob { id: 7, size: 3 }
            } else {
                Body::Folder
            };
            entries.push((whole.first(n), Node { linked: false, body }));
        }
    }
    Disk::read(entries).unwrap()
}

fn manager() -> ModManager {
    let mut manager = ModManager::new(path("/store"));
    manager.game_path = Some(path("/g"));
    manager
}

#[test]
fn profile_names_become_folder_names() {
    assert_eq!(name_profile_folder("profile_1", "My Profile!"), "profile_1_my-profile");
    assert_eq!(name_profile_folder("profile_1", "--A_b c?d--"), "profile_1_a_b-c_d");
    assert_eq!(name_profile_folder("profile_1", "***"), "profile_1_");
    assert_eq!(folder_char_of('x', false), 'x');
    assert_eq!(folder_char_of('\t', true), '-');
    assert_eq!(folder_char_of('?', false), '_');
    assert_eq!(folder_char_of('\u{e9}', false), '_');
    assert_eq!(trim_marks("_-a-_"), "a");
}

/// A folder name that the game could not find again is never made.
#[test]
fn letters_outside_ascii_become_marks() {
    assert_eq!(name_profile_folder("profile_1", "H\u{e9}ros"), "profile_1_h_ros");
    assert_eq!(name_profile_folder("profile_1", "\u{65e5}\u{672c}"), "profile_1_");
    assert_eq!(name_profile_folder("profile_1", "\u{d6}l 2"), "profile_1_l-2");
    let mut disk = disk(&["/g/game/citadel/addons/profile_1_h_ros/1_a.vpk"], &[ADDONS]);
    let folder =
        create_profile_folder(&manager(), &mut disk, "profile_1", "H\u{e9}ros").unwrap();
    assert_eq!(folder, "profile_1_h_ros");
    assert!(disk.is_file(&addons().child(&folder).child("1_a.vpk")));
    let paths = switch_profile(&mut manager(), &mut disk, &Some(folder)).unwrap();
    assert_eq!(paths, strings(&["citadel/addons/profile_1_h_ros"]));
    assert!(is_valid_search_path(&paths[0]));
}

#[test]
fn profile_folders_are_made_listed_and_deleted() {
    let mut disk = disk(&[], &[ADDONS, "/g/game/citadel/addons/other"]);
    let manager = manager();
    let folder = create_profile_folder(&manager, &mut disk, "profile_1", "One").unwrap();
    assert_eq!(folder, "profile_1_one");
    assert_eq!(create_profile_folder(&manager, &mut disk, "profile_1", "One"), Ok(folder.clone()));
    assert_eq!(list_profile_folders(&manager, &disk), Ok(vec![folder.clone()]));
    delete_profile_folder(&manager, &mut disk, &folder).unwrap();
    assert_eq!(list_profile_folders(&manager, &disk), Ok(Vec::new()));
    assert!(disk.has(&addons().child("other")));

    for bad in ["", ".", ".."] {
        assert_eq!(
            delete_profile_folder(&manager, &mut disk, bad).unwrap_err().message(),
            "Invalid profile folder name"
        );
    }
    assert_eq!(
        delete_profile_folder(&manager, &mut disk, "other").unwrap_err().message(),
        "Profile folder must start with 'profile_'"
    );
    assert_eq!(
        delete_profile_folder(&manager, &mut disk, "profile_../x").unwrap_err().message(),
        "Invalid profile folder name"
    );
    let nowhere = ModManager::new(path("/store"));
    assert_eq!(list_profile_folders(&nowhere, &disk), Err(Error::GamePathNotSet));
}

#[test]
fn switching_tells_the_search_paths() {
    let mut disk = disk(&["/g/game/citadel/addons2/profile_x/pak01_dir.vpk"], &[ADDONS]);
    let folder = Some("profile_x".to_string());
    let want = strings(&["citadel/addons/profile_x", "citadel/addons2/profile_x"]);
    assert_eq!(switch_profile(&mut manager(), &mut disk, &folder), Ok(want.clone()));
    assert_eq!(resync_profile_shards(&mut manager(), &mut disk, &folder), Ok(want));
}

#[test]
fn the_files_of_a_profile_are_listed_by_shard() {
    let disk = disk(
        &[
            "/g/game/citadel/addons/pak01_dir.vpk",
            "/g/game/citadel/addons/123_x.vpk",
            "/g/game/citadel/addons/notes.txt",
            "/g/game/citadel/addons2/pak01_dir.vpk",
        ],
        &[],
    );
    let files = get_profile_installed_vpks(&manager(), &disk, &None).unwrap();
    let wires: Vec<&str> = files.iter().map(|f| f.locator.as_str()).collect();
    assert_eq!(wires, ["123_x.vpk", "pak01_dir.vpk", "addons2/pak01_dir.vpk"]);
    assert_eq!(files[2].shard.get(), 2);
    assert_eq!(check_addons_exist(&manager(), &disk, &None), Ok(true));
    assert_eq!(check_addons_exist(&manager(), &disk, &Some("none".to_string())), Ok(false));
    assert_eq!(
        check_addons_exist(&ModManager::new(path("/store")), &disk, &None),
        Ok(false)
    );
}

fn with_manifest(files: &[&str]) -> Disk {
    let mut disk = disk(files, &[ADDONS]);
    let mut manifest = ProfileVpkManifest::default();
    manifest.mark_enabled(
        "1",
        strings(&["pak01_dir.vpk"]),
        strings(&["a.vpk"]),
        None,
        ShardIndex::new(2).unwrap(),
    );
    manifest.mark_disabled("2", strings(&["2_b.vpk"]), strings(&["b.vpk"]));
    manifest.save(&mut disk, &addons()).unwrap();
    disk
}

#[test]
fn files_are_found_by_their_locator() {
    let manager = manager();
    let found = locate_profile_vpk(&manager, &None, "addons2/pak01_dir.vpk").unwrap();
    assert_eq!(found.path.to_text(), "/g/game/citadel/addons2/pak01_dir.vpk");
    assert_eq!(found.shard.get(), 2);
    for bad in ["", "a\\b.vpk", "../x.vpk", "readme.txt"] {
        let error = locate_profile_vpk(&manager, &None, bad).unwrap_err();
        assert_eq!(error.message(), format!("Invalid VPK file name: {bad}"));
    }
    let error = locate_profile_vpk(&manager, &None, "addons/x.vpk").unwrap_err();
    assert_eq!(error.message(), "Invalid VPK shard locator: addons/x.vpk");
    assert!(locate_profile_vpk(&manager, &None, "LOUD.VPK").is_ok());
    assert!(is_vpk_filename("LOUD.VPK", "loud.vpk"));
    assert!(!is_vpk_filename("LOUD.VPK", "LOUD.VPK"));
}

#[test]
fn files_outside_their_directory_are_refused() {
    let found = locate_profile_vpk(&manager(), &None, "x.vpk").unwrap();
    let inside = authorize_profile_vpk(
        &found,
        Some(path("/real/addons")),
        Some(path("/real/addons/x.vpk")),
    );
    assert_eq!(inside, Ok(path("/real/addons/x.vpk")));
    let outside =
        authorize_profile_vpk(&found, Some(path("/real/addons")), Some(path("/etc/x.vpk")));
    assert_eq!(
        outside,
        Err(Error::UnauthorizedPath("VPK file must be within addons directory".to_string()))
    );
    assert_eq!(
        authorize_profile_vpk(&found, None, None).unwrap_err().message(),
        "Unable to resolve addon shard directory"
    );
    assert_eq!(
        authorize_profile_vpk(&found, Some(path("/real")), None).unwrap_err().message(),
        "Unable to resolve VPK path: /g/game/citadel/addons/x.vpk"
    );
}

#[test]
fn files_of_mods_are_not_deleted_as_strays() {
    let mut disk = with_manifest(&["/g/game/citadel/addons2/pak01_dir.vpk"]);
    let locate = |name: &str| locate_profile_vpk(&manager(), &None, name).unwrap();
    let error = delete_profile_vpk(&mut disk, &locate("addons2/pak01_dir.vpk")).unwrap_err();
    assert_eq!(
        error.message(),
        "Cannot delete managed VPK pak01_dir.vpk as an unmatched file; refresh the VPK scan"
    );
    assert!(delete_profile_vpk(&mut disk, &locate("2_b.vpk")).is_err());
    assert!(delete_profile_vpk(&mut disk, &locate("pak01_dir.vpk")).is_ok());
}

#[test]
fn a_mod_is_shown_by_its_file_or_its_folder() {
    let mut disk = with_manifest(&["/g/game/citadel/addons2/pak01_dir.vpk"]);
    let manager = manager();
    match show_mod_in_game(&manager, &mut disk, "1", &strings(&["pak01_dir.vpk"]), &None).unwrap() {
        Shown::File(p) => assert_eq!(p.to_text(), "/g/game/citadel/addons2/pak01_dir.vpk"),
        other => panic!("{other:?}"),
    }
    match show_mod_in_game(&manager, &mut disk, "1", &strings(&["gone.vpk"]), &None).unwrap() {
        Shown::Folder(p) => assert_eq!(p.to_text(), "/g/game/citadel/addons2"),
        other => panic!("{other:?}"),
    }
    assert_eq!(
        show_mod_in_game(&manager, &mut disk, "9", &Vec::new(), &None).unwrap_err().message(),
        "Cannot locate mod 9: refresh the VPK scan first"
    );
    assert_eq!(show_mod_in_store(&disk, path("/store/1")), Err(Error::ModFileNotFound));
    assert_eq!(show_mod_in_store(&disk, addons()), Ok(addons()));
}

#[test]
fn seeding_adds_only_what_is_missing() {
    let mut disk = with_manifest(&[]);
    let seed = |id: &str, enabled: bool| SeedManifestEntry {
        mod_id: id.to_string(),
        enabled,
        shard: default_seed_shard(),
        current_vpks: strings(&["pak09_dir.vpk"]),
        disabled_vpks: strings(&["x.vpk"]),
        original_vpk_names: strings(&["o.vpk"]),
        order: Some(4),
    };
    let seeds = vec![seed("1", false), seed("3", true), seed("4", false)];
    seed_profile_vpk_manifest_entries(&manager(), &mut disk, &None, &seeds).unwrap();
    let manifest = get_profile_vpk_manifest(&mut manager(), &mut disk, &None).unwrap();
    assert!(manifest.entry("1").unwrap().enabled);
    assert_eq!(manifest.entry("1").unwrap().shard.get(), 2);
    assert_eq!(manifest.entry("3").unwrap().current_vpks, strings(&["pak09_dir.vpk"]));
    assert_eq!(manifest.entry("4").unwrap().disabled_vpks, strings(&["x.vpk"]));
    assert_eq!(manifest.mods.len(), 4);
}

#[test]
fn diagnostics_join_the_three_sources() {
    let mut disk = with_manifest(&["/g/game/citadel/addons2/pak01_dir.vpk"]);
    let written = Ok(strings(&["citadel/addons", "citadel/addons2"]));
    let report = get_shard_diagnostics(&manager(), &mut disk, &None, written).unwrap();
    assert!(report.issues.is_empty(), "{:?}", report.issues);
    assert_eq!(report.expected_search_paths, strings(&["citadel/addons", "citadel/addons2"]));
    let failed = get_shard_diagnostics(&manager(), &mut disk, &None, Err(Error::ModFileNotFound));
    assert_eq!(failed.unwrap_err(), Error::ModFileNotFound);
}

#[test]
fn downloads_are_watched_to_their_end() {
    let mut watch = Watch::new();
    assert_eq!(
        watch.take(WatchEvent::Elapsed { ms: 0 }),
        WatchAction::WaitAndAsk { ms: 500 }
    );
    assert_eq!(watch.take(WatchEvent::Running), WatchAction::TellTime);
    assert_eq!(watch.take(WatchEvent::Ended), WatchAction::Look);
    let mut waits = Vec::new();
    loop {
        match watch.take(WatchEvent::Found { files: 0 }) {
            WatchAction::WaitAndLook { ms } => waits.push(ms),
            action => {
                assert_eq!(action, WatchAction::Stop);
                break;
            }
        }
    }
    assert_eq!(waits, [100, 200, 400, 800, 1000, 1000, 1000, 1000, 1000]);
    match watch {
        Watch::Settled(Err(why)) => assert_eq!(why, "Download completed but no VPKs found"),
        other => panic!("{other:?}"),
    }

    let mut late = Watch::new();
    assert_eq!(late.take(WatchEvent::Elapsed { ms: 600_000 }), WatchAction::Stop);
    assert!(matches!(late, Watch::Settled(Err(ref why)) if why == "Download timeout"));

    let mut broken = Watch::new();
    broken.take(WatchEvent::Unknown { why: "x".to_string() });
    assert!(
        matches!(broken, Watch::Settled(Err(ref why)) if why == "Failed to check download status: x")
    );

    let mut good = Watch::new();
    good.take(WatchEvent::Ended);
    assert_eq!(good.take(WatchEvent::Found { files: 2 }), WatchAction::Stop);
    assert!(matches!(good, Watch::Settled(Ok(()))));

    let mut blind = Watch::new();
    blind.take(WatchEvent::Ended);
    blind.take(WatchEvent::Blind { why: "y".to_string() });
    assert!(
        matches!(blind, Watch::Settled(Err(ref why)) if why == "Failed to verify download: y")
    );
}

#[test]
fn imports_prepare_a_folder() {
    let mut disk = disk(&[], &[ADDONS]);
    let manager = manager();
    assert_eq!(hexadecimal(255), "ff");
    assert_eq!(hexadecimal(0), "0");
    let id = imported_profile_id(1_700_000_000_123, 0x1a2b);
    assert_eq!(id, "profile_1700000000123_1a2b");
    let made = prepare_import(&manager, &mut disk, 2, "create", &id, "Shared", "").unwrap();
    assert_eq!(made, "profile_1700000000123_1a2b_shared");
    assert!(disk.is_dir(&addons().child(&made)));
    let kept = prepare_import(&manager, &mut disk, 2, "override", &id, "x", "profile_9").unwrap();
    assert_eq!(kept, "profile_9");
    assert!(disk.is_dir(&addons().child("profile_9")));
    assert_eq!(
        prepare_import(&manager, &mut disk, 0, "create", &id, "x", "").unwrap_err().message(),
        "No mods provided for import"
    );
}

#[test]
fn imported_mods_are_installed_or_named_with_their_failure() {
    let mut disk = disk(&["/g/game/citadel/addons/profile_9/1_a.vpk"], &[]);
    let import = |id: &str| ImportMod {
        mod_id: id.to_string(),
        mod_name: format!("mod {id}"),
        is_map: false,
        file_tree: None,
    };
    let timeout = Err("Download timeout".to_string());
    let imports = vec![(import("1"), Ok(())), (import("2"), timeout), (import("3"), Ok(()))];
    let result = import_profile_batch(
        &mut manager(),
        &mut disk,
        "profile_9".to_string(),
        &imports,
    );
    assert_eq!(result.profile_folder, "profile_9");
    assert_eq!(result.succeeded, strings(&["1"]));
    assert_eq!(result.installed_mods[0].installed_vpks, strings(&["pak01_dir.vpk"]));
    assert_eq!(result.failed[0], ("2".to_string(), "Download timeout".to_string()));
    assert_eq!(result.failed[1].0, "3");
    assert_eq!(
        result.failed[1].1,
        "ModInvalid(\"Mod needs to be downloaded first. No VPK files found in addons folder.\")"
    );
    assert_eq!(result.succeeded.len() + result.failed.len(), imports.len());
    assert_eq!(result.installed_mods.len(), result.succeeded.len());
}

#[test]
fn heroes_are_looked_for_in_the_files_of_the_mod() {
    let mut disk = with_manifest(&[
        "/g/game/citadel/addons2/pak01_dir.vpk",
        "/g/game/citadel/addons/profile_x/1_old.vpk",
        "/g/game/citadel/addons/profile_x/pak05_dir.vpk",
        "/g/game/citadel/addons/1_note.txt",
        "/kept/1/deep/extra.vpk",
    ]);
    let bases = profile_bases(&disk, &addons());
    assert_eq!(bases.len(), 2);

    let texts = |v: Vec<TreePath>| v.iter().map(|p| p.to_text()).collect::<Vec<_>>();
    let known = strings(&["pak05_dir.vpk"]);
    assert_eq!(
        texts(collect_game_vpks_for_mod(&mut disk, &addons(), "1", &known)),
        [
            "/g/game/citadel/addons/profile_x/1_old.vpk",
            "/g/game/citadel/addons2/pak01_dir.vpk",
        ]
    );
    // A mod that no manifest records is found by what is known of it.
    assert_eq!(
        texts(collect_game_vpks_for_mod(&mut disk, &addons(), "7", &known)),
        ["/g/game/citadel/addons/profile_x/pak05_dir.vpk"]
    );

    let requests = vec![ModDetectionRequest { mod_id: "1".to_string(), installed_vpks: None }];
    let items = collect_detection_items(&manager(), &mut disk, &requests, &Some(path("/kept")));
    assert_eq!(items[0].id, "1");
    assert_eq!(items[0].vpk_paths.len(), 3);
    assert_eq!(items[0].vpk_paths[2].to_text(), "/kept/1/deep/extra.vpk");
}
