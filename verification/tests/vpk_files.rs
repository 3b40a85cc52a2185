//! Enabling, disabling, reordering, copying and clearing VPK files.
use deadlock_mods::disk::{Body, Disk, Node};
use deadlock_mods::file_tree::ModFileTree;
use deadlock_mods::path::TreePath;
use deadlock_mods::shard::{ProfileBase, ShardIndex, REORDER_STAGING_DIR};
use deadlock_mods::vpk_manager::staging::{recover_staging_directory, RecoveryMode};
use deadlock_mods::vpk_manager::{MissingVpkPolicy, ShardAssignment, SwapRequest, VpkManager};

const ADDONS: &str = "/t/citadel/addons";

fn path(text: &str) -> TreePath {
    TreePath::parse(text)
}

fn addons() -> TreePath {
    path(ADDONS)
}

fn base() -> ProfileBase {
    ProfileBase::new(&addons()).unwrap()
}

fn shard(value: u32) -> ShardIndex {
    ShardIndex::new(value).unwrap()
}

fn strings(v: &[&str]) -> Vec<String> {
    v.iter().map(|s| s.to_string()).collect()
}

/// A tree in the making. Files with the same contents get the same id.
struct Tree {
    entries: Vec<(TreePath, Node)>,
    contents: Vec<String>,
}

impl Tree {
    fn new() -> Tree {
        let mut tree = Tree { entries: Vec::new(), contents: Vec::new() };
        tree.dir(ADDONS);
        tree
    }

    fn dir(&mut self, text: &str) {
        let whole = path(text);
        for n in 2..=whole.len() {
            self.entries.push((whole.first(n), Node { linked: false, body: Body::Folder }));
        }
    }

    fn file(&mut self, text: &str, contents: &str) {
        let whole = path(text);
        self.dir(&whole.parent().unwrap().to_text());
        let id = match self.contents.iter().position(|c| c == contents) {
            Some(i) => i,
            None => {
                self.contents.push(contents.to_string());
                self.contents.len() - 1
            }
        };
        let body = Body::Blob { id: id as u64, size: contents.len() as u64 };
        self.entries.push((whole, Node { linked: false, body }));
    }

    fn vpk(&mut self, name: &str) {
        let contents = format!("vpk {name}");
        self.file(&format!("{ADDONS}/{name}"), &contents);
    }

    fn read(self) -> (Disk, Vec<String>) {
        (Disk::read(self.entries).unwrap(), self.contents)
    }

    fn disk(self) -> Disk {
        self.read().0
    }
}

fn has(disk: &Disk, text: &str) -> bool {
    disk.has(&path(text))
}

fn in_addons(disk: &Disk, name: &str) -> bool {
    disk.has(&addons().child(name))
}

fn contents<'a>(disk: &Disk, all: &'a [String], text: &str) -> &'a str {
    match disk.node(&path(text)).unwrap().body {
        Body::Blob { id, .. } => &all[id as usize],
        other => panic!("{text}: {other:?}"),
    }
}

fn assignment(mod_id: &str, filename: &str) -> ShardAssignment {
    ShardAssignment {
        mod_id: mod_id.to_string(),
        shard: ShardIndex::first(),
        vpks: vec![filename.to_string()],
    }
}

#[test]
fn detects_disabled_local_mod_prefixes() {
    assert_eq!(
        VpkManager::extract_mod_id_from_prefix("local-abc-123_mod.vpk"),
        Some("local-abc-123".to_string())
    );
    assert_eq!(
        VpkManager::extract_mod_id_from_prefix("123456_mod.vpk"),
        Some("123456".to_string())
    );
    assert_eq!(VpkManager::extract_mod_id_from_prefix("pak01_dir.vpk"), None);
}

#[test]
fn enabled_names_carry_their_number() {
    assert_eq!(VpkManager::enabled_vpk_number("pak01_dir.vpk"), Some(1));
    assert_eq!(VpkManager::enabled_vpk_number("pak150_dir.vpk"), Some(150));
    assert_eq!(VpkManager::enabled_vpk_number("pak_dir.vpk"), None);
    assert_eq!(VpkManager::enabled_vpk_number("pak01.vpk"), None);
    assert!(VpkManager::is_enabled_vpk_name("pak07_dir.vpk"));
    assert!(!VpkManager::is_enabled_vpk_name("mypak07_dir.vpk"));
}

#[test]
fn reorder_keeps_disabled_local_vpks_disabled() {
    let mut tree = Tree::new();
    tree.vpk("pak01_dir.vpk");
    tree.vpk("local-abc-123_original.vpk");
    let mut disk = tree.disk();

    let updated = VpkManager::new()
        .reorder_vpks_sharded(&mut disk, &vec![assignment("123456", "pak01_dir.vpk")], &addons())
        .unwrap();

    assert_eq!(updated.len(), 1);
    assert_eq!(updated[0].mod_id, "123456");
    assert_eq!(updated[0].shard, ShardIndex::first());
    assert_eq!(updated[0].vpks, vec!["pak01_dir.vpk".to_string()]);
    assert!(in_addons(&disk, "local-abc-123_original.vpk"));
    assert!(!in_addons(&disk, "pak02_dir.vpk"));
}

#[test]
fn reorder_errors_before_mutating_when_vpk_is_assigned_to_multiple_mods() {
    let mut tree = Tree::new();
    tree.vpk("pak01_dir.vpk");
    let mut disk = tree.disk();

    let err = VpkManager::new()
        .reorder_vpks_sharded(
            &mut disk,
            &vec![
                assignment("first", "pak01_dir.vpk"),
                assignment("second", "pak01_dir.vpk"),
            ],
            &addons(),
        )
        .unwrap_err();

    assert!(err.message().contains(
        "Cannot reorder mods because VPK files are assigned to multiple mods: pak01_dir.vpk -> first, second"
    ));
    assert!(in_addons(&disk, "pak01_dir.vpk"));
    assert!(!in_addons(&disk, REORDER_STAGING_DIR));
}

#[test]
fn reordering_swaps_the_contents_of_names() {
    let mut tree = Tree::new();
    tree.vpk("pak01_dir.vpk");
    tree.vpk("pak02_dir.vpk");
    let (mut disk, all) = tree.read();

    let placed = VpkManager::new()
        .reorder_vpks_sharded(
            &mut disk,
            &vec![assignment("b", "pak02_dir.vpk"), assignment("a", "pak01_dir.vpk")],
            &addons(),
        )
        .unwrap();

    assert_eq!(placed[0].vpks, strings(&["pak01_dir.vpk"]));
    assert_eq!(placed[1].vpks, strings(&["pak02_dir.vpk"]));
    assert_eq!(contents(&disk, &all, "/t/citadel/addons/pak01_dir.vpk"), "vpk pak02_dir.vpk");
    assert_eq!(contents(&disk, &all, "/t/citadel/addons/pak02_dir.vpk"), "vpk pak01_dir.vpk");
    assert!(!in_addons(&disk, REORDER_STAGING_DIR));
}

#[test]
fn reordering_moves_unclaimed_files_behind_the_claimed() {
    let mut tree = Tree::new();
    for name in ["pak01_dir.vpk", "pak02_dir.vpk", "12_off.vpk", "notes.txt"] {
        tree.vpk(name);
    }
    let (mut disk, all) = tree.read();
    VpkManager::new()
        .reorder_vpks_sharded(&mut disk, &vec![assignment("a", "pak02_dir.vpk")], &addons())
        .unwrap();
    assert_eq!(contents(&disk, &all, "/t/citadel/addons/pak01_dir.vpk"), "vpk pak02_dir.vpk");
    assert_eq!(contents(&disk, &all, "/t/citadel/addons/pak02_dir.vpk"), "vpk pak01_dir.vpk");
    assert_eq!(contents(&disk, &all, "/t/citadel/addons/12_off.vpk"), "vpk 12_off.vpk");
    assert_eq!(contents(&disk, &all, "/t/citadel/addons/notes.txt"), "vpk notes.txt");
}

#[test]
fn disable_errors_when_enabled_vpk_is_missing() {
    let mut disk = Tree::new().disk();
    let err = VpkManager::new()
        .disable_vpks_in(
            &mut disk,
            &addons(),
            &addons(),
            "123456",
            &strings(&["pak01_dir.vpk"]),
            &strings(&["original.vpk"]),
            MissingVpkPolicy::Strict,
        )
        .unwrap_err();

    assert!(err.message().contains("enabled VPK files are missing"));
}

#[test]
fn disable_errors_when_original_name_count_does_not_match() {
    let mut tree = Tree::new();
    tree.vpk("pak01_dir.vpk");
    tree.vpk("pak02_dir.vpk");
    let mut disk = tree.disk();

    let err = VpkManager::new()
        .disable_vpks_in(
            &mut disk,
            &addons(),
            &addons(),
            "123456",
            &strings(&["pak01_dir.vpk", "pak02_dir.vpk"]),
            &strings(&["first.vpk"]),
            MissingVpkPolicy::Strict,
        )
        .unwrap_err();

    assert!(err
        .message()
        .contains("original VPK name count (1) does not match installed VPK count (2)"));
}

#[test]
fn disable_reconciles_when_enabled_vpk_is_missing() {
    let mut disk = Tree::new().disk();
    let result = VpkManager::new()
        .disable_vpks_in(
            &mut disk,
            &addons(),
            &addons(),
            "123456",
            &strings(&["pak01_dir.vpk"]),
            &strings(&["original.vpk"]),
            MissingVpkPolicy::Reconcile,
        )
        .unwrap();

    assert!(result.is_empty());
}

#[test]
fn disable_reconciles_partial_missing() {
    let mut tree = Tree::new();
    tree.vpk("pak01_dir.vpk");
    let mut disk = tree.disk();

    let result = VpkManager::new()
        .disable_vpks_in(
            &mut disk,
            &addons(),
            &addons(),
            "123456",
            &strings(&["pak01_dir.vpk", "pak02_dir.vpk"]),
            &strings(&["first.vpk", "second.vpk"]),
            MissingVpkPolicy::Reconcile,
        )
        .unwrap();

    assert_eq!(result, vec!["123456_first.vpk".to_string()]);
    assert!(in_addons(&disk, "123456_first.vpk"));
    assert!(!in_addons(&disk, "pak01_dir.vpk"));
}

#[test]
fn sharding_spreads_more_than_99_vpks_across_addon_folders() {
    let mut tree = Tree::new();
    let mut ordered = Vec::new();
    for i in 1..=150u32 {
        let name = format!("pak{i:02}_dir.vpk");
        tree.vpk(&name);
        ordered.push(assignment(&format!("mod{i}"), &name));
    }
    let mut disk = tree.disk();

    let placements =
        VpkManager::new().reorder_vpks_sharded(&mut disk, &ordered, &addons()).unwrap();

    let base = base();
    let shard1 = base.shard_dir(ShardIndex::first());
    let shard2 = base.shard_dir(shard(2));

    assert_eq!(VpkManager::count_enabled_vpks(&disk, &shard1), 99);
    assert_eq!(VpkManager::count_enabled_vpks(&disk, &shard2), 51);

    assert_eq!(placements.len(), 150);
    assert_eq!(placements[0].shard, ShardIndex::first());
    assert_eq!(placements[98].shard, ShardIndex::first());
    assert_eq!(placements[99].shard, shard(2));
    assert_eq!(placements[149].shard, shard(2));
    assert!(disk.is_file(&shard2.child("pak01_dir.vpk")));
    assert!(disk.is_file(&shard2.child("pak51_dir.vpk")));
    assert!(!disk.has(&shard2.child("pak100_dir.vpk")));
}

#[test]
fn disable_with_existing_prefixed_destination_removes_active_copy() {
    let mut tree = Tree::new();
    tree.vpk("pak01_dir.vpk");
    tree.vpk("123456_original.vpk");
    let (mut disk, all) = tree.read();

    let out = VpkManager::new()
        .disable_vpks_in(
            &mut disk,
            &addons(),
            &addons(),
            "123456",
            &strings(&["pak01_dir.vpk"]),
            &strings(&["original.vpk"]),
            MissingVpkPolicy::Strict,
        )
        .unwrap();

    assert_eq!(out, vec!["123456_original.vpk".to_string()]);
    assert!(!in_addons(&disk, "pak01_dir.vpk"));
    assert!(in_addons(&disk, "123456_original.vpk"));
    assert_eq!(
        contents(&disk, &all, "/t/citadel/addons/123456_original.vpk"),
        "vpk 123456_original.vpk"
    );
}

#[test]
fn enable_rejects_missing_source_before_renaming() {
    let mut tree = Tree::new();
    tree.vpk("123456_a.vpk");
    let mut disk = tree.disk();

    let err = VpkManager::new()
        .enable_vpks_in(
            &mut disk,
            &addons(),
            &addons(),
            "123456",
            &strings(&["123456_a.vpk", "123456_b.vpk"]),
        )
        .unwrap_err();

    assert!(err.message().contains("source VPK files are missing"));
    assert!(in_addons(&disk, "123456_a.vpk"));
    assert!(!in_addons(&disk, "pak01_dir.vpk"));
}

#[test]
fn enabling_and_disabling_cross_the_shard_boundary() {
    let mut tree = Tree::new();
    tree.vpk("123456_overflow.vpk");
    let mut disk = tree.disk();
    let base = base();
    let shard_two = base.shard_dir(shard(2));
    let manager = VpkManager::new();

    let enabled = manager
        .enable_vpks_in(
            &mut disk,
            base.path(),
            &shard_two,
            "123456",
            &strings(&["123456_overflow.vpk"]),
        )
        .unwrap();

    assert_eq!(enabled, vec!["pak01_dir.vpk".to_string()]);
    assert!(disk.is_file(&shard_two.child("pak01_dir.vpk")));
    assert!(!in_addons(&disk, "123456_overflow.vpk"));

    let disabled = manager
        .disable_vpks_in(
            &mut disk,
            &shard_two,
            base.path(),
            "123456",
            &enabled,
            &strings(&["overflow.vpk"]),
            MissingVpkPolicy::Strict,
        )
        .unwrap();

    assert_eq!(disabled, vec!["123456_overflow.vpk".to_string()]);
    assert!(disk.is_file(&base.path().child("123456_overflow.vpk")));
    assert!(!disk.has(&shard_two.child("pak01_dir.vpk")));
}

#[test]
fn clearing_a_profile_empties_every_shard() {
    let mut tree = Tree::new();
    tree.vpk("pak01_dir.vpk");
    tree.vpk("123456_disabled.vpk");
    tree.file("/t/citadel/addons2/pak01_dir.vpk", "test vpk");
    let mut disk = tree.disk();

    VpkManager::new().stage_clear_all_vpks(&disk, &addons()).ok().unwrap().commit(&mut disk);

    assert_eq!(VpkManager::count_enabled_vpks(&disk, &addons()), 0);
    assert!(!in_addons(&disk, "123456_disabled.vpk"));
    assert!(!has(&disk, "/t/citadel/addons2/pak01_dir.vpk"));
}

#[test]
fn reorder_recovery_does_not_clobber_already_placed_files() {
    let mut tree = Tree::new();
    tree.file("/t/citadel/addons/pak01_dir.vpk", "placed");
    tree.file("/t/citadel/addons/.dmm-reorder/s1__pak01_dir.vpk", "staged");
    let (mut disk, all) = tree.read();

    recover_staging_directory(
        &mut disk,
        &base(),
        &addons().child(".dmm-reorder"),
        RecoveryMode::AvoidEnabledCollisions,
    )
    .unwrap();

    assert_eq!(contents(&disk, &all, "/t/citadel/addons/pak01_dir.vpk"), "placed");
    assert_eq!(contents(&disk, &all, "/t/citadel/addons/pak02_dir.vpk"), "staged");
}

#[test]
fn strict_recovery_refuses_a_collision() {
    let mut tree = Tree::new();
    tree.file("/t/citadel/addons/pak01_dir.vpk", "placed");
    tree.file("/t/citadel/addons/.dmm-clear/s1__pak01_dir.vpk.pending", "staged");
    let (mut disk, all) = tree.read();

    assert!(recover_staging_directory(
        &mut disk,
        &base(),
        &addons().child(".dmm-clear"),
        RecoveryMode::Strict,
    )
    .is_err());
    assert_eq!(contents(&disk, &all, "/t/citadel/addons/pak01_dir.vpk"), "placed");
}

#[test]
fn copying_prefixes_every_vpk_below_a_folder() {
    let mut tree = Tree::new();
    tree.file("/s/123/files/a.vpk", "a");
    tree.file("/s/123/files/deep/b.vpk", "b");
    tree.file("/s/123/files/readme.txt", "no");
    let (mut disk, all) = tree.read();

    let names = VpkManager::new()
        .copy_vpks_with_prefix(&mut disk, &path("/s/123/files"), &addons(), "123")
        .unwrap();

    assert_eq!(names, strings(&["123_a.vpk", "123_b.vpk"]));
    assert_eq!(contents(&disk, &all, "/t/citadel/addons/123_b.vpk"), "b");
    assert!(has(&disk, "/s/123/files/a.vpk"));
}

#[test]
fn copying_a_selection_takes_only_what_is_chosen() {
    let mut tree = Tree::new();
    tree.file("/s/123/a.vpk", "a");
    tree.file("/s/123/b.vpk", "b");
    let mut disk = tree.disk();
    let chosen = ModFileTree::from_options(&strings(&["a.vpk", "b.vpk"]), &strings(&["b.vpk"]));

    let names = VpkManager::new()
        .copy_selected_vpks_with_prefix(&mut disk, &path("/s/123"), &addons(), "123", &chosen)
        .unwrap();

    assert_eq!(names, strings(&["123_b.vpk"]));
    assert!(in_addons(&disk, "123_b.vpk"));
    assert!(!in_addons(&disk, "123_a.vpk"));
}

#[test]
fn replacing_writes_over_the_enabled_files() {
    let mut tree = Tree::new();
    tree.vpk("pak03_dir.vpk");
    tree.file("/s/new.vpk", "new");
    let (mut disk, all) = tree.read();

    VpkManager::new()
        .replace_vpks(
            &mut disk,
            &addons(),
            &addons(),
            "123",
            &vec![path("/s/new.vpk")],
            &strings(&["pak03_dir.vpk"]),
        )
        .unwrap();

    assert_eq!(contents(&disk, &all, "/t/citadel/addons/pak03_dir.vpk"), "new");
}

#[test]
fn swapping_disables_the_old_files_and_enables_the_new() {
    let mut tree = Tree::new();
    tree.vpk("pak01_dir.vpk");
    tree.vpk("123_red.vpk");
    let (mut disk, all) = tree.read();
    let base = base();
    let installed = strings(&["pak01_dir.vpk"]);
    let old = strings(&["blue.vpk"]);
    let new = strings(&["red.vpk"]);

    let names = VpkManager::new()
        .stage_enabled_vpk_swap(
            &disk,
            &SwapRequest {
                base: &base,
                current_shard: ShardIndex::first(),
                target_shard: ShardIndex::first(),
                mod_id: "123",
                current_installed_vpks: &installed,
                current_original_names: &old,
                selected_original_names: &new,
            },
        )
        .ok()
        .unwrap()
        .commit(&mut disk);

    assert_eq!(names, strings(&["pak01_dir.vpk"]));
    assert_eq!(contents(&disk, &all, "/t/citadel/addons/pak01_dir.vpk"), "vpk 123_red.vpk");
    assert_eq!(contents(&disk, &all, "/t/citadel/addons/123_blue.vpk"), "vpk pak01_dir.vpk");
    assert!(!in_addons(&disk, "123_red.vpk"));
}
