//! What one operation does, another undoes.
use deadlock_mods::disk::{Body, Disk, Node};
use deadlock_mods::error::Error;
use deadlock_mods::path::{is_vpk_name, TreePath};
use deadlock_mods::shard::{ProfileBase, ShardIndex, StagedName, CLEAR_STAGING_DIR};
use deadlock_mods::vpk_file::{vpk_parse_failed, vpk_parse_options};
use deadlock_mods::vpk_manager::staging::{recover_staging_directory, RecoveryMode};
use deadlock_mods::vpk_manager::{MissingVpkPolicy, VpkManager};
use deadlock_mods::vpk_manifest::ProfileVpkManifest;

const ADDONS: &str = "/t/citadel/addons";

fn path(text: &str) -> TreePath {
    TreePath::parse(text)
}

fn strings(v: &[&str]) -> Vec<String> {
    v.iter().map(|s| s.to_string()).collect()
}

fn disk(files: &[&str]) -> Disk {
    let mut entries = Vec::new();
    for (id, text) in files.iter().enumerate() {
        let whole = path(text);
        for n in 2..=whole.len() {
            let body = if n == whole.len() {
                Body::Blob { id: id as u64, size: 1 }
            } else {
                Body::Folder
            };
            entries.push((whole.first(n), Node { linked: false, body }));
        }
    }
    Disk::read(entries).unwrap()
}

fn shape(disk: &Disk) -> Vec<(String, Node)> {
    disk.below(&path("/"))
        .iter()
        .map(|p| (p.to_text(), disk.node(p).unwrap()))
        .collect()
}

#[test]
fn recovery_undoes_a_clearing_that_was_cut_short() {
    let before = disk(&[
        "/t/citadel/addons/pak01_dir.vpk",
        "/t/citadel/addons/12_off.vpk",
        "/t/citadel/addons/notes.txt",
        "/t/citadel/addons2/pak01_dir.vpk",
        "/t/citadel/addons2/keep.txt",
    ]);
    let base = ProfileBase::new(&path(ADDONS)).unwrap();
    let mut work = VpkManager::new().stage_clear_all_vpks(&before, &path(ADDONS)).unwrap().work;
    assert!(!work.has(&path("/t/citadel/addons2/pak01_dir.vpk")));
    assert!(work.has(&path("/t/citadel/addons2/keep.txt")));
    let stage = path(ADDONS).child(CLEAR_STAGING_DIR);
    recover_staging_directory(&mut work, &base, &stage, RecoveryMode::Strict).unwrap();
    assert_eq!(shape(&work), shape(&before));
}

#[test]
fn reading_a_manifest_twice_gives_the_same() {
    let mut work = disk(&[
        "/t/citadel/addons/.dmm-clear/s2__pak01_dir.vpk.pending",
        "/t/citadel/addons/.dmm-reorder/s1__pak04_dir.vpk.pending",
        "/t/citadel/addons/.dmm-update-9/s1__pak07_dir.vpk.pending",
        "/t/citadel/addons/pak04_dir.vpk",
    ]);
    let mut manifest = ProfileVpkManifest::empty();
    let names = strings(&["pak04_dir.vpk"]);
    manifest.mark_enabled("1", names, strings(&["a.vpk"]), None, ShardIndex::first());
    work.write_manifest(&path(ADDONS).child(".dmm.json"), &manifest).unwrap();
    let first = ProfileVpkManifest::load(&mut work, &path(ADDONS)).unwrap();
    assert!(work.has(&path("/t/citadel/addons2/pak01_dir.vpk")));
    assert!(!work.has(&path(ADDONS).child(".dmm-reorder")));
    assert!(!work.has(&path(ADDONS).child(".dmm-update-9")));
    let after = shape(&work);
    let again = ProfileVpkManifest::load(&mut work, &path(ADDONS)).unwrap();
    assert_eq!(again, first);
    assert_eq!(shape(&work), after);
}

#[test]
fn disabling_undoes_enabling() {
    let before = disk(&[
        "/t/citadel/addons/7_a.vpk",
        "/t/citadel/addons/7_b.vpk",
        "/t/citadel/addons/pak01_dir.vpk",
    ]);
    let mut work = before.duplicate();
    let names = strings(&["7_a.vpk", "7_b.vpk"]);
    let vpks = VpkManager::new();
    let on = vpks
        .enable_vpks_in(&mut work, &path(ADDONS), &path(ADDONS), "7", &names).unwrap();
    assert_eq!(on, strings(&["pak02_dir.vpk", "pak03_dir.vpk"]));
    let off = vpks
        .disable_vpks_in(
            &mut work,
            &path(ADDONS),
            &path(ADDONS),
            "7",
            &on,
            &strings(&["a.vpk", "b.vpk"]),
            MissingVpkPolicy::Strict,
        )
        .unwrap();
    assert_eq!(off, names);
    assert_eq!(shape(&work), shape(&before));
}

#[test]
fn staged_files_are_no_vpks() {
    let staged = StagedName::new(ShardIndex::first(), "pak01_dir.vpk".to_string()).encode();
    assert_eq!(staged, "s1__pak01_dir.vpk.pending");
    assert!(!is_vpk_name(&staged));
}

#[test]
fn parsing_lists_entries_and_dates_the_file() {
    let plain = vpk_parse_options("/a.vpk", None, None, Some(1_700_000_000));
    assert_eq!(plain.file_path, "/a.vpk");
    assert!(plain.include_entries && !plain.include_merkle && !plain.include_full_file_hash);
    assert_eq!(plain.last_modified, Some(1_700_000_000));
    let full = vpk_parse_options("/a.vpk", Some(true), Some(true), None);
    assert!(full.include_merkle && full.include_full_file_hash);
    assert_eq!(full.last_modified, None);
    assert_eq!(vpk_parse_options("", None, None, Some(8_210_266_876_799)).last_modified,
        Some(8_210_266_876_799));
    assert_eq!(vpk_parse_options("", None, None, Some(8_210_266_876_800)).last_modified, None);
    assert_eq!(vpk_parse_options("", None, None, Some(u64::MAX)).last_modified, Some(-1));
    assert_eq!(vpk_parse_options("", None, None, Some(1 << 63)).last_modified, None);
    assert_eq!(
        vpk_parse_failed("/a.vpk", "bad magic"),
        Error::InvalidInput("Failed to parse VPK file /a.vpk: bad magic".to_string())
    );
}
