//! What errors show, and how they are named.
use deadlock_mods::disk::{Body, Disk, Node};
use deadlock_mods::error::Error;
use deadlock_mods::path::TreePath;
use deadlock_mods::shard::ShardIndex;
use deadlock_mods::text::trim_text;
use deadlock_mods::vpk_manager::copying::{addons_not_found, addons_not_found_at};
use deadlock_mods::vpk_manager::{ShardAssignment, VpkManager};
use std::path::Path;

fn path(text: &str) -> TreePath {
    TreePath::parse(text)
}

#[test]
fn errors_are_named_with_what_they_hold() {
    let hold = |m: &str| m.to_string();
    assert_eq!(Error::InvalidInput(hold("a b")).named(), "InvalidInput(\"a b\")");
    assert_eq!(Error::ModInvalid(hold("say \"no\"")).named(), "ModInvalid(\"say \\\"no\\\"\")");
    assert_eq!(Error::ModFileNotFound.named(), "ModFileNotFound");
    assert_eq!(Error::GamePathNotSet.named(), "GamePathNotSet");
    assert_eq!(Error::Io(hold("c:\\x")).named(), "Io(\"c:\\\\x\")");
    assert_eq!(Error::RollbackFailed(hold("a\nb")).named(), "RollbackFailed(\"a\\nb\")");
    assert_eq!(Error::BackupCreationFailed(hold("")).named(), "BackupCreationFailed(\"\")");
    assert_eq!(
        Error::BackupRestoreFailed(hold("it's \u{e9}")).named(),
        "BackupRestoreFailed(\"it's \u{e9}\")"
    );
    assert_eq!(Error::BackupNotFound.named(), "BackupNotFound");
    assert_eq!(Error::UnauthorizedPath(hold("\u{7f}")).named(), "UnauthorizedPath(\"\\u{7f}\")");
}

#[test]
fn names_take_any_text_for_what_is_held() {
    let held = Error::ModInvalid("m".to_string());
    assert_eq!(held.named_with("..."), "ModInvalid(...)");
    assert_eq!(Error::BackupNotFound.named_with("..."), "BackupNotFound");
}

#[test]
fn errors_show_what_they_hold() {
    assert_eq!(Error::ModInvalid("say \"no\"".to_string()).message(), "say \"no\"");
    assert_eq!(Error::ModFileNotFound.message(), "Mod file not found");
    assert_eq!(Error::GamePathNotSet.message(), "Game path not set");
    assert_eq!(Error::BackupNotFound.message(), "Backup not found");
}

#[test]
fn a_missing_profile_is_named_as_paths_are() {
    for n in (0..0x3100_u32).chain(0xe000..0xe100).chain(0x1f600..0x1f700) {
        if let Some(c) = char::from_u32(n) {
            let text = format!("/g/a{c}b/addons");
            let shown = format!("Addons path not found: {:?}", Path::new(&text));
            assert_eq!(addons_not_found(&path(&text)), Error::Io(shown));
        }
    }
    assert_eq!(addons_not_found_at("<here>").message(), "Addons path not found: <here>");

    let mut disk = Disk::read(vec![(path("/g"), Node { linked: false, body: Body::Folder })]).unwrap();
    let refused = VpkManager::new()
        .reorder_vpks_sharded(&mut disk, &Vec::new(), &path("/g/ci\"tadel/addons"))
        .unwrap_err();
    assert_eq!(refused.message(), "Addons path not found: \"/g/ci\\\"tadel/addons\"");
}

#[test]
fn files_of_several_mods_are_listed_with_them() {
    let files = ["/t/citadel/addons/pak01_dir.vpk", "/t/citadel/addons/pak02_dir.vpk"];
    let mut entries = Vec::new();
    for text in files {
        let whole = path(text);
        for n in 2..=whole.len() {
            let body =
                if n == whole.len() { Body::Blob { id: 0, size: 1 } } else { Body::Folder };
            entries.push((whole.first(n), Node { linked: false, body }));
        }
    }
    let mut disk = Disk::read(entries).unwrap();
    let claim = |mod_id: &str, vpks: &[&str]| ShardAssignment {
        mod_id: mod_id.to_string(),
        shard: ShardIndex::first(),
        vpks: vpks.iter().map(|v| v.to_string()).collect(),
    };
    let claims = vec![
        claim("b", &["pak02_dir.vpk", "pak01_dir.vpk"]),
        claim("a", &["pak01_dir.vpk", "pak02_dir.vpk"]),
    ];
    let refused = VpkManager::new()
        .reorder_vpks_sharded(&mut disk, &claims, &path("/t/citadel/addons"))
        .unwrap_err();
    assert_eq!(
        refused.message(),
        "Cannot reorder mods because VPK files are assigned to multiple mods: \
         pak01_dir.vpk -> b, a; pak02_dir.vpk -> b, a"
    );
}

#[test]
fn white_space_is_what_unicode_lists() {
    let listed = [
        '\t', '\n', '\u{b}', '\u{c}', '\r', ' ', '\u{85}', '\u{a0}', '\u{1680}', '\u{2000}',
        '\u{2001}', '\u{2002}', '\u{2003}', '\u{2004}', '\u{2005}', '\u{2006}', '\u{2007}',
        '\u{2008}', '\u{2009}', '\u{200a}', '\u{2028}', '\u{2029}', '\u{202f}', '\u{205f}',
        '\u{3000}',
    ];
    for n in 0..=0x10ffff_u32 {
        if let Some(c) = char::from_u32(n) {
            let bare = trim_text(&format!("{c}x")) == "x";
            assert_eq!(bare, listed.contains(&c), "{n:x}");
        }
    }
}
