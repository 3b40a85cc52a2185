//! Manifests on the disk, the search paths they imply, and the shard report.
use deadlock_mods::disk::{Body, Disk, Node};
use deadlock_mods::manager::gameinfo::{needs_shard_migration, search_paths_for};
use deadlock_mods::path::TreePath;
use deadlock_mods::shard::{ProfileBase, ShardIndex, REORDER_STAGING_DIR};
use deadlock_mods::shard_report::{analyze, ShardReport, ShardReportInput};
use deadlock_mods::vpk_manifest::{
    ProfileVpkManifest, ProfileVpkManifestEntry, CURRENT_MANIFEST_VERSION, MANIFEST_FILENAME,
};

const ADDONS: &str = "/t/citadel/addons";

const V1_MANIFEST: &str = r#"{
  "version": 1,
  "mods": {
    "123456": {
      "enabled": true,
      "order": 0,
      "currentVpks": [
        "pak01_dir.vpk",
        "pak02_dir.vpk"
      ],
      "disabledVpks": [],
      "originalVpkNames": [
        "cool_mod.vpk",
        "cool_mod_2.vpk"
      ]
    },
    "local-abc": {
      "enabled": false,
      "order": 3,
      "currentVpks": [],
      "disabledVpks": [
        "local-abc_skin.vpk"
      ],
      "originalVpkNames": [
        "skin.vpk"
      ]
    }
  }
}"#;

fn path(text: &str) -> TreePath {
    TreePath::parse(text)
}

fn addons() -> TreePath {
    path(ADDONS)
}

fn shard(value: u32) -> ShardIndex {
    ShardIndex::new(value).unwrap()
}

fn strings(v: &[&str]) -> Vec<String> {
    v.iter().map(|s| s.to_string()).collect()
}

fn texts_of(value: &serde_json::Value) -> Vec<String> {
    match value.as_array() {
        Some(list) => list.iter().map(|s| s.as_str().unwrap().to_string()).collect(),
        None => Vec::new(),
    }
}

/// The manifest that a text writes, if it writes one.
fn parse(text: &str) -> Option<ProfileVpkManifest> {
    let value: serde_json::Value = serde_json::from_str(text).ok()?;
    let mut manifest = ProfileVpkManifest::default();
    manifest.version = value["version"].as_u64()? as u32;
    for (id, entry) in value["mods"].as_object()? {
        let index = match entry["shard"].as_u64() {
            Some(n) => ShardIndex::new(n as u32).ok()?,
            None => ShardIndex::first(),
        };
        manifest.set_entry(
            id,
            ProfileVpkManifestEntry {
                enabled: entry["enabled"].as_bool()?,
                order: entry["order"].as_u64().map(|n| n as u32),
                shard: index,
                current_vpks: texts_of(&entry["currentVpks"]),
                disabled_vpks: texts_of(&entry["disabledVpks"]),
                original_vpk_names: texts_of(&entry["originalVpkNames"]),
            },
        );
    }
    Some(manifest)
}

struct Tree {
    entries: Vec<(TreePath, Node)>,
}

impl Tree {
    fn new() -> Tree {
        let mut tree = Tree { entries: Vec::new() };
        tree.dir(ADDONS);
        tree
    }

    fn dir(&mut self, text: &str) {
        let whole = path(text);
        for n in 2..=whole.len() {
            self.entries.push((whole.first(n), Node { linked: false, body: Body::Folder }));
        }
    }

    fn put(&mut self, text: &str, body: Body) {
        let whole = path(text);
        self.dir(&whole.parent().unwrap().to_text());
        self.entries.push((whole, Node { linked: false, body }));
    }

    fn file(&mut self, text: &str) {
        self.put(text, Body::Blob { id: 5, size: 3 });
    }

    /// A manifest file with this text.
    fn json(&mut self, text: &str, json: &str) {
        let size = json.len() as u64;
        match parse(json) {
            Some(manifest) => self.put(text, Body::Manifest { manifest, size }),
            None => self.put(text, Body::Blob { id: 6, size }),
        }
    }

    fn disk(self) -> Disk {
        Disk::read(self.entries).unwrap()
    }
}

fn one_mod() -> ProfileVpkManifest {
    let mut manifest = ProfileVpkManifest::default();
    manifest.mark_enabled(
        "123",
        strings(&["pak01_dir.vpk"]),
        strings(&["cool_mod.vpk"]),
        Some(0),
        ShardIndex::first(),
    );
    manifest
}

#[test]
fn upgrades_a_v1_manifest_from_disk_to_the_current_version() {
    let mut tree = Tree::new();
    tree.json("/t/citadel/addons/.dmm.json", V1_MANIFEST);
    let mut disk = tree.disk();

    let loaded = ProfileVpkManifest::load(&mut disk, &addons()).unwrap();

    assert_eq!(loaded.version, CURRENT_MANIFEST_VERSION);
    assert_eq!(loaded.mods.len(), 2);

    let enabled = loaded.entry("123456").unwrap();
    assert_eq!(enabled.shard, ShardIndex::first());
    assert!(enabled.enabled);
    assert_eq!(enabled.order, Some(0));
    assert_eq!(enabled.current_vpks, strings(&["pak01_dir.vpk", "pak02_dir.vpk"]));
    assert_eq!(enabled.original_vpk_names, strings(&["cool_mod.vpk", "cool_mod_2.vpk"]));

    let disabled = loaded.entry("local-abc").unwrap();
    assert_eq!(disabled.shard, ShardIndex::first());
    assert!(!disabled.enabled);
    assert_eq!(disabled.disabled_vpks, strings(&["local-abc_skin.vpk"]));

    let profile = ProfileBase::new(&addons()).unwrap();
    assert_eq!(
        enabled.file_paths(&profile),
        vec![addons().child("pak01_dir.vpk"), addons().child("pak02_dir.vpk")]
    );
}

#[test]
fn saving_an_upgraded_v1_manifest_writes_the_current_version() {
    let mut tree = Tree::new();
    tree.json("/t/citadel/addons/.dmm.json", V1_MANIFEST);
    let mut disk = tree.disk();

    let loaded = ProfileVpkManifest::load(&mut disk, &addons()).unwrap();
    loaded.save(&mut disk, &addons()).unwrap();

    match disk.node(&addons().child(MANIFEST_FILENAME)).unwrap().body {
        Body::Manifest { manifest, .. } => {
            assert_eq!(manifest.version, CURRENT_MANIFEST_VERSION);
            assert_eq!(manifest.entry("123456").unwrap().shard.get(), 1);
        }
        other => panic!("{other:?}"),
    }
    assert_eq!(ProfileVpkManifest::load(&mut disk, &addons()).unwrap(), loaded);
}

#[test]
fn load_rejects_a_manifest_from_a_future_version() {
    let mut tree = Tree::new();
    let future = format!(r#"{{"version": {}, "mods": {{}}}}"#, CURRENT_MANIFEST_VERSION + 1);
    tree.json("/t/citadel/addons/.dmm.json", &future);
    let mut disk = tree.disk();

    let error = ProfileVpkManifest::load(&mut disk, &addons()).unwrap_err();

    assert!(error.message().contains("unsupported version"));
}

#[test]
fn load_rejects_an_out_of_range_shard() {
    let mut tree = Tree::new();
    tree.json(
        "/t/citadel/addons/.dmm.json",
        r#"{"version": 2, "mods": {"1": {"enabled": true, "shard": 0}}}"#,
    );
    let mut disk = tree.disk();

    assert!(ProfileVpkManifest::load(&mut disk, &addons()).is_err());
}

#[test]
fn persists_profile_manifest() {
    let mut disk = Tree::new().disk();
    let manifest = one_mod();

    manifest.save(&mut disk, &addons()).unwrap();
    let loaded = ProfileVpkManifest::load(&mut disk, &addons()).unwrap();

    assert_eq!(loaded, manifest);
}

#[test]
fn load_recovers_temp_manifest_when_main_is_missing() {
    let mut tree = Tree::new();
    tree.put(
        "/t/citadel/addons/.dmm.json.tmp",
        Body::Manifest { manifest: one_mod(), size: 9 },
    );
    let mut disk = tree.disk();

    let loaded = ProfileVpkManifest::load(&mut disk, &addons()).unwrap();

    assert_eq!(loaded, one_mod());
    assert!(disk.has(&addons().child(MANIFEST_FILENAME)));
    assert!(!disk.has(&addons().child(".dmm.json.tmp")));
}

#[test]
fn load_removes_stale_temp_manifest_when_main_exists() {
    let mut tree = Tree::new();
    tree.put("/t/citadel/addons/.dmm.json", Body::Manifest { manifest: one_mod(), size: 9 });
    tree.json("/t/citadel/addons/.dmm.json.tmp", "{}");
    let mut disk = tree.disk();

    let loaded = ProfileVpkManifest::load(&mut disk, &addons()).unwrap();

    assert_eq!(loaded, one_mod());
    assert!(!disk.has(&addons().child(".dmm.json.tmp")));
}

#[test]
fn load_recovers_interrupted_reorder_staging() {
    let mut tree = Tree::new();
    tree.file("/t/citadel/addons/.dmm-reorder/s2__pak01_dir.vpk.pending");
    let mut disk = tree.disk();

    ProfileVpkManifest::load(&mut disk, &addons()).unwrap();

    let recovered = disk.node(&path("/t/citadel/addons2/pak01_dir.vpk")).unwrap();
    assert_eq!(recovered.body, Body::Blob { id: 5, size: 3 });
    assert!(!disk.has(&addons().child(REORDER_STAGING_DIR)));
}

#[test]
fn load_settles_interrupted_updates_by_what_is_recorded() {
    let mut tree = Tree::new();
    tree.put("/t/citadel/addons/.dmm.json", Body::Manifest { manifest: one_mod(), size: 9 });
    tree.file("/t/citadel/addons/.dmm-update-123/s1__pak01_dir.vpk.pending");
    tree.file("/t/citadel/addons/.dmm-update-9/s1__pak02_dir.vpk.pending");
    let mut disk = tree.disk();

    ProfileVpkManifest::load(&mut disk, &addons()).unwrap();

    assert!(disk.is_file(&addons().child("pak01_dir.vpk")));
    assert!(!disk.has(&addons().child("pak02_dir.vpk")));
    assert!(!disk.has(&addons().child(".dmm-update-9")));
}

#[test]
fn validate_tree_checks_manifest_files_in_their_recorded_shards() {
    let mut manifest = ProfileVpkManifest::default();
    manifest.mark_enabled(
        "123",
        strings(&["pak01_dir.vpk"]),
        strings(&["cool_mod.vpk"]),
        Some(0),
        shard(2),
    );
    let mut tree = Tree::new();
    tree.dir("/t/snapshot/addons/profile_x");
    let mut disk = tree.disk();
    manifest.save(&mut disk, &path("/t/snapshot/addons/profile_x")).unwrap();

    let error = ProfileVpkManifest::validate_tree(&mut disk, &path("/t/snapshot")).unwrap_err();
    assert!(error.message().contains("references missing VPKs"));

    let mut tree = Tree::new();
    tree.put("/t/snapshot/addons/profile_x/.dmm.json", Body::Manifest { manifest, size: 9 });
    tree.file("/t/snapshot/addons2/profile_x/pak01_dir.vpk");
    let mut disk = tree.disk();
    ProfileVpkManifest::validate_tree(&mut disk, &path("/t/snapshot")).unwrap();
}

#[test]
fn mark_enabled_preserves_original_names_when_empty() {
    let mut manifest = one_mod();

    manifest.mark_enabled("123", strings(&["pak02_dir.vpk"]), Vec::new(), Some(1), shard(2));

    let entry = manifest.entry("123").unwrap();
    assert_eq!(entry.original_vpk_names, strings(&["cool_mod.vpk"]));
    assert_eq!(entry.current_vpks, strings(&["pak02_dir.vpk"]));
    assert_eq!(entry.order, Some(1));
    assert_eq!(entry.shard, shard(2));
}

#[test]
fn mark_disabled_keeps_order_and_goes_back_to_the_base() {
    let mut manifest = one_mod();
    manifest.mark_disabled("123", strings(&["123_cool_mod.vpk"]), Vec::new());
    let entry = manifest.entry("123").unwrap();
    assert!(!entry.enabled);
    assert_eq!(entry.order, Some(0));
    assert_eq!(entry.shard.get(), 1);
    assert_eq!(entry.disabled_vpks, strings(&["123_cool_mod.vpk"]));
    assert_eq!(entry.original_vpk_names, strings(&["cool_mod.vpk"]));
    manifest.remove_mod("123");
    assert!(manifest.entry("123").is_none());
    assert_eq!(manifest.shard_of("123").get(), 1);
}

// Search paths.

fn citadel() -> Tree {
    let mut tree = Tree { entries: Vec::new() };
    tree.dir("/t/game/citadel/addons");
    tree
}

fn paths_for(disk: &Disk, folder: Option<&str>) -> Vec<String> {
    let root = path("/t/game/citadel/addons");
    let base = ProfileBase::new(&match folder {
        Some(f) => root.child(f),
        None => root,
    })
    .unwrap();
    let folder = folder.map(|f| f.to_string());
    search_paths_for(disk, &base, &ProfileVpkManifest::default(), &folder)
}

#[test]
fn search_paths_cover_every_shard_that_holds_enabled_vpks() {
    let mut tree = citadel();
    tree.file("/t/game/citadel/addons/pak01_dir.vpk");
    assert_eq!(paths_for(&tree.disk(), None), strings(&["citadel/addons"]));

    let mut tree = citadel();
    tree.file("/t/game/citadel/addons/pak01_dir.vpk");
    tree.file("/t/game/citadel/addons2/pak01_dir.vpk");
    tree.file("/t/game/citadel/addons3/pak01_dir.vpk");
    assert_eq!(
        paths_for(&tree.disk(), None),
        strings(&["citadel/addons", "citadel/addons2", "citadel/addons3"])
    );
}

#[test]
fn search_paths_follow_the_manifest_when_disk_is_behind() {
    let disk = citadel().disk();
    let base = ProfileBase::new(&path("/t/game/citadel/addons")).unwrap();
    let mut manifest = ProfileVpkManifest::default();
    manifest.mark_enabled("123", strings(&["pak01_dir.vpk"]), Vec::new(), None, shard(4));

    assert_eq!(search_paths_for(&disk, &base, &manifest, &None).len(), 4);
}

#[test]
fn search_paths_survive_a_missing_base_directory() {
    let mut tree = citadel();
    tree.file("/t/game/citadel/addons2/profile_x/pak01_dir.vpk");
    assert_eq!(
        paths_for(&tree.disk(), Some("profile_x")),
        strings(&["citadel/addons/profile_x", "citadel/addons2/profile_x"])
    );
}

#[test]
fn search_paths_are_scoped_to_the_profile_folder() {
    let mut tree = citadel();
    tree.file("/t/game/citadel/addons/profile_x/pak01_dir.vpk");
    tree.file("/t/game/citadel/addons2/profile_x/pak01_dir.vpk");
    tree.file("/t/game/citadel/addons3/profile_y/pak01_dir.vpk");
    assert_eq!(
        paths_for(&tree.disk(), Some("profile_x")),
        strings(&["citadel/addons/profile_x", "citadel/addons2/profile_x"])
    );
}

#[test]
fn migration_only_triggers_for_a_pre_sharding_layout() {
    let base = ProfileBase::new(&path("/t/game/citadel/addons/profile_x")).unwrap();
    let mut tree = citadel();
    tree.file("/t/game/citadel/addons/profile_x/pak01_dir.vpk");
    assert!(!needs_shard_migration(&tree.disk(), &base));

    let mut tree = citadel();
    tree.file("/t/game/citadel/addons/profile_x/pak01_dir.vpk");
    tree.file("/t/game/citadel/addons/profile_x/pak100_dir.vpk");
    assert!(needs_shard_migration(&tree.disk(), &base));
}

// The shard report.

fn profile() -> ProfileBase {
    ProfileBase::new(&path("/t/citadel/addons/profile_x")).unwrap()
}

fn report(disk: &Disk, manifest: &ProfileVpkManifest, gameinfo: &[&str]) -> ShardReport {
    analyze(
        disk,
        ShardReportInput {
            base: &profile(),
            profile_folder: Some("profile_x".to_string()),
            manifest,
            expected_search_paths: strings(&[
                "citadel/addons/profile_x",
                "citadel/addons2/profile_x",
            ]),
            gameinfo_search_paths: strings(gameinfo),
            needs_migration: false,
        },
    )
}

fn two_shard_manifest() -> ProfileVpkManifest {
    let mut manifest = ProfileVpkManifest::default();
    let pak = strings(&["pak01_dir.vpk"]);
    manifest.mark_enabled("base", pak.clone(), strings(&["a.vpk"]), Some(0), shard(1));
    manifest.mark_enabled("overflow", pak, strings(&["b.vpk"]), Some(1), shard(2));
    manifest
}

#[test]
fn a_consistent_two_shard_profile_reports_no_issues() {
    let mut tree = Tree::new();
    tree.file("/t/citadel/addons/profile_x/pak01_dir.vpk");
    tree.file("/t/citadel/addons2/profile_x/pak01_dir.vpk");

    let report = report(
        &tree.disk(),
        &two_shard_manifest(),
        &["citadel/addons/profile_x", "citadel/addons2/profile_x"],
    );

    assert!(report.issues.is_empty(), "{:?}", report.issues);
    assert!(report.sharding_active);
    assert!(report.search_paths_in_sync);
    assert_eq!(report.shards_in_use, 2);
    assert_eq!(report.total_enabled_vpks, 2);
}

#[test]
fn an_overflow_shard_missing_from_gameinfo_is_reported() {
    let mut tree = Tree::new();
    tree.file("/t/citadel/addons/profile_x/pak01_dir.vpk");
    tree.file("/t/citadel/addons2/profile_x/pak01_dir.vpk");

    let report = report(&tree.disk(), &two_shard_manifest(), &["citadel/addons/profile_x"]);

    assert!(!report.search_paths_in_sync);
    assert!(
        report
            .issues
            .iter()
            .any(|issue| issue.contains("citadel/addons2/profile_x is not in gameinfo.gi")),
        "{:?}",
        report.issues
    );
    assert_eq!(
        report.issues[0],
        "Shard 2 holds 1 enabled VPKs but citadel/addons2/profile_x is not in gameinfo.gi, so the engine will not load them."
    );
    assert_eq!(
        report.issues[1],
        "gameinfo.gi is missing 1 expected search path(s). Switch profiles or launch the game to rewrite it."
    );
}

#[test]
fn a_manifest_pointing_at_an_empty_shard_is_reported() {
    let mut tree = Tree::new();
    tree.file("/t/citadel/addons/profile_x/pak01_dir.vpk");

    let report = report(
        &tree.disk(),
        &two_shard_manifest(),
        &["citadel/addons/profile_x", "citadel/addons2/profile_x"],
    );

    assert!(
        report.issues.iter().any(|issue| issue.contains("places 1 mod(s) in shard 2")),
        "{:?}",
        report.issues
    );
    assert_eq!(report.manifest_mods, 2);
    assert_eq!(report.manifest_enabled_mods, 2);
    assert!(!report.shards[1].present);
}

#[test]
fn leftover_out_of_range_pak_numbers_are_reported() {
    let mut tree = Tree::new();
    tree.file("/t/citadel/addons/profile_x/pak01_dir.vpk");
    tree.file("/t/citadel/addons/profile_x/pak150_dir.vpk");

    let report = report(
        &tree.disk(),
        &ProfileVpkManifest::default(),
        &["citadel/addons/profile_x", "citadel/addons2/profile_x"],
    );

    assert!(report.shards[0].out_of_range_vpks);
    assert!(
        report.issues.iter().any(|issue| issue.contains("numbered above 99")),
        "{:?}",
        report.issues
    );
}

#[test]
fn a_report_names_overfull_shards_and_pending_migrations() {
    let mut tree = Tree::new();
    for i in 1..=100u32 {
        tree.file(&format!("/t/citadel/addons/profile_x/pak{i:02}_dir.vpk"));
    }
    let disk = tree.disk();
    let report = analyze(
        &disk,
        ShardReportInput {
            base: &profile(),
            profile_folder: Some("profile_x".to_string()),
            manifest: &ProfileVpkManifest::default(),
            expected_search_paths: strings(&["citadel/addons/profile_x"]),
            gameinfo_search_paths: strings(&["citadel/addons/profile_x"]),
            needs_migration: true,
        },
    );
    assert_eq!(report.issues[0], "Shard 1 holds 100 enabled VPKs, over the engine limit of 99.");
    assert_eq!(
        report.issues[1],
        "Shard 1 contains pak files numbered above 99 that the engine ignores."
    );
    assert!(report.issues[2].starts_with("This profile still uses the pre-sharding layout"));
    assert_eq!(report.issues.len(), 3);
}
