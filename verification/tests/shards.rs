//! Shard indexes, locators, staged names, search paths and profile removal.
use deadlock_mods::disk::{Body, Disk, Node};
use deadlock_mods::path::TreePath;
use deadlock_mods::shard::{
    all_shards, is_internal_artifact, is_valid_search_path, ProfileBase, ShardIndex, ShardLocator,
    StagedName, MAX_SHARDS,
};
use deadlock_mods::shard_store::remove_profile_shards;

fn path(text: &str) -> TreePath {
    TreePath::parse(text)
}

fn shard(value: u32) -> ShardIndex {
    ShardIndex::new(value).unwrap()
}

fn locator(shard: ShardIndex, filename: &str) -> ShardLocator {
    ShardLocator::new(shard, filename.to_string())
}

/// The tree of the given files and empty directories.
fn disk(files: &[&str], dirs: &[&str]) -> Disk {
    let mut entries = Vec::new();
    let all = files.iter().map(|f| (f, true)).chain(dirs.iter().map(|d| (d, false)));
    for (text, is_file) in all {
        let whole = path(text);
        for n in 2..=whole.len() {
            let body = if is_file && n == whole.len() {
                Body::Blob { id: 7, size: 3 }
            } else {
                Body::Folder
            };
            entries.push((whole.first(n), Node { linked: false, body }));
        }
    }
    Disk::read(entries).unwrap()
}

#[test]
fn shard_dir_resolves_sibling_addon_folders() {
    let base = ProfileBase::new(&path("/game/citadel/addons")).unwrap();
    assert_eq!(base.shard_dir(ShardIndex::first()), *base.path());
    assert_eq!(base.shard_dir(shard(2)), path("/game/citadel/addons2"));
    assert_eq!(base.shard_dir(shard(10)), path("/game/citadel/addons10"));

    let profile = ProfileBase::new(&path("/game/citadel/addons/profile_x")).unwrap();
    assert_eq!(profile.shard_dir(ShardIndex::first()), *profile.path());
    assert_eq!(profile.shard_dir(shard(2)), path("/game/citadel/addons2/profile_x"));
}

#[test]
fn profile_base_rejects_paths_that_are_not_addons_rooted() {
    assert!(ProfileBase::new(&path("/tmp/scratch")).is_err());
    assert!(ProfileBase::new(&path("/tmp/addons")).is_err());
    let nested = ProfileBase::new(&path("/game/citadel/addons/a/b")).unwrap();
    assert_eq!(nested.shard_dir(shard(2)), path("/game/citadel/addons2/a/b"));
    assert!(ProfileBase::new(&path("/game/citadel/addons2")).is_err());
    assert!(ProfileBase::from_snapshot(&path("/snapshot/addons")).is_ok());
}

#[test]
fn bases_lie_in_the_nearest_addons() {
    let at = path("/citadel/addons/a/citadel/addons/profile_x");
    let base = ProfileBase::from_path(&at, true).unwrap();
    assert_eq!(*base.path(), at);
    assert_eq!(*base.citadel(), path("/citadel/addons/a/citadel"));
    let copy = ProfileBase::from_path(&path("/citadel/addons/b/addons"), false).unwrap();
    assert_eq!(*copy.citadel(), path("/citadel/addons/b"));
    assert!(ProfileBase::from_path(&path("/citadel/addons/b/addons"), true).is_err());
    assert!(ProfileBase::from_path(&path("/citadel/mods"), false).is_err());
}

#[test]
fn live_bases_are_snapshot_bases() {
    for text in ["/g/citadel/addons", "/g/citadel/addons/profile_x"] {
        let live = ProfileBase::new(&path(text)).unwrap();
        let copy = ProfileBase::from_snapshot(&path(text)).unwrap();
        assert_eq!(live.path().to_text(), copy.path().to_text());
        assert_eq!(live.citadel().to_text(), copy.citadel().to_text());
        assert_eq!(live.shard_dir(shard(3)).to_text(), copy.shard_dir(shard(3)).to_text());
    }
    assert!(ProfileBase::new(&path("/backup/addons")).is_err());
    assert!(ProfileBase::from_snapshot(&path("/backup/addons")).is_ok());
}

#[test]
fn shard_index_rejects_out_of_range_values() {
    assert!(ShardIndex::new(0).is_err());
    assert!(ShardIndex::new(MAX_SHARDS + 1).is_err());
    assert_eq!(shard(1), ShardIndex::first());
}

#[test]
fn locators_round_trip_through_the_wire_format() {
    assert_eq!(
        ShardLocator::parse("pak01_dir.vpk").unwrap(),
        locator(ShardIndex::first(), "pak01_dir.vpk")
    );
    assert_eq!(
        ShardLocator::parse("addons3/pak01_dir.vpk").unwrap(),
        locator(shard(3), "pak01_dir.vpk")
    );

    for wire in ["pak01_dir.vpk", "addons2/pak01_dir.vpk", "addons10/x.vpk"] {
        assert_eq!(ShardLocator::parse(wire).unwrap().to_wire(), wire);
    }
}

#[test]
fn locator_parsing_rejects_ambiguous_and_out_of_range_spellings() {
    assert!(ShardLocator::parse("addons1/pak01_dir.vpk").is_err());
    assert!(ShardLocator::parse("addons11/pak01_dir.vpk").is_err());
    assert!(ShardLocator::parse("addons2/nested/pak01_dir.vpk").is_err());
    assert!(ShardLocator::parse("addons2/").is_err());
    assert!(ShardLocator::parse("").is_err());
}

#[test]
fn locators_have_one_spelling() {
    assert!(ShardLocator::parse("addons02/pak01_dir.vpk").is_err());
    assert!(ShardLocator::parse("addons+2/pak01_dir.vpk").is_err());
    let error = ShardLocator::parse("addons/pak01_dir.vpk").unwrap_err();
    assert_eq!(error.message(), "Invalid VPK shard locator: addons/pak01_dir.vpk");
}

#[test]
fn legacy_names_fall_back_to_the_base_shard() {
    assert_eq!(
        ShardLocator::from_legacy_name("some\\nested\\pak01_dir.vpk"),
        locator(ShardIndex::first(), "pak01_dir.vpk")
    );
    assert_eq!(
        ShardLocator::from_legacy_name("addons2/pak01_dir.vpk"),
        locator(shard(2), "pak01_dir.vpk")
    );
}

#[test]
fn staged_names_round_trip_and_tolerate_the_legacy_spelling() {
    let staged = StagedName::new(shard(4), "pak07_dir.vpk".to_string());
    assert_eq!(staged.encode(), "s4__pak07_dir.vpk.pending");
    assert_eq!(StagedName::parse(&staged.encode()).unwrap(), staged);
    assert_eq!(StagedName::parse("s4__pak07_dir.vpk").unwrap(), staged);

    assert!(StagedName::parse("pak01_dir.vpk").is_err());
    assert!(StagedName::parse("s0__pak01_dir.vpk").is_err());
    assert!(StagedName::parse("s1__../escape.vpk").is_err());
}

#[test]
fn root_names_and_search_paths() {
    let names: Vec<String> = all_shards().iter().map(|s| s.root_name()).collect();
    assert_eq!(names.len(), 10);
    assert_eq!(names[0], "addons");
    assert_eq!(names[1], "addons2");
    assert_eq!(names[9], "addons10");
    for s in all_shards() {
        assert_eq!(ShardIndex::from_root_name(&s.root_name()), Some(s));
    }
    assert_eq!(ShardIndex::from_root_name("addons1"), None);
    assert_eq!(ShardIndex::from_root_name("addons11"), None);
    assert_eq!(shard(3).search_path(&None), "citadel/addons3");
    assert_eq!(
        shard(1).search_path(&Some("profile_x".to_string())),
        "citadel/addons/profile_x"
    );
    assert!(is_valid_search_path(&shard(10).search_path(&Some("profile_x".to_string()))));
}

#[test]
fn shard_directories_lead_back_to_their_shards() {
    let base = ProfileBase::new(&path("/g/citadel/addons/profile_x")).unwrap();
    for (index, dir) in base.shards() {
        assert_eq!(base.shard_of_dir(&dir), Some(index));
    }
    assert_eq!(base.shard_of_dir(&path("/g/citadel/addons2")), None);
}

#[test]
fn names_of_operations_under_way_are_internal() {
    for name in [".dmm.json.tmp", ".dmm-clear", ".dmm-reorder", ".dmm-update-9", ".dmm-deleting-0"] {
        assert!(is_internal_artifact(name), "{name}");
    }
    assert!(!is_internal_artifact(".dmm.json"));
    assert!(!is_internal_artifact("pak01_dir.vpk"));
}

#[test]
fn removing_a_profile_deletes_all_of_its_shards() {
    let mut disk = disk(
        &[
            "/t/citadel/addons/profile_x/pak01_dir.vpk",
            "/t/citadel/addons2/profile_x/pak01_dir.vpk",
            "/t/citadel/addons5/profile_x/pak01_dir.vpk",
        ],
        &["/t/citadel/addons2/profile_y"],
    );

    let removed = remove_profile_shards(&mut disk, &path("/t/citadel/addons/profile_x")).unwrap();

    assert!(removed);
    for root in ["addons", "addons2", "addons5"] {
        assert!(!disk.has(&path("/t/citadel").child(root).child("profile_x")));
    }
    assert!(disk.has(&path("/t/citadel/addons2/profile_y")));
}

#[test]
fn removing_a_profile_that_never_existed_reports_nothing_removed() {
    let mut disk = disk(&[], &["/t/citadel/addons"]);
    assert!(!remove_profile_shards(&mut disk, &path("/t/citadel/addons/profile_x")).unwrap());
}

#[test]
fn valid_search_paths_accept_safe_profiles_and_shards() {
    assert!(is_valid_search_path("citadel/addons"));
    assert!(is_valid_search_path("citadel/addons/profile_123_my-mod"));
    assert!(is_valid_search_path("citadel/addons2/server_abc"));
    assert!(is_valid_search_path("citadel/addons10/profile_x"));
}

#[test]
fn valid_search_paths_reject_unsafe_or_out_of_range() {
    assert!(!is_valid_search_path("citadel/addons/evil profile"));
    assert!(!is_valid_search_path("citadel/addons/pro\"file"));
    assert!(!is_valid_search_path("citadel/addons/pro{file}"));
    assert!(!is_valid_search_path("citadel/addons/../escape"));
    assert!(!is_valid_search_path("citadel/addons/a/b"));
    assert!(!is_valid_search_path("citadel/addons11/profile"));
    assert!(!is_valid_search_path("citadel/addons1/profile"));
    assert!(!is_valid_search_path("other/addons/profile"));
}
