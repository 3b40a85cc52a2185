//! Installing, uninstalling, ordering, removing and replacing mods.
use deadlock_mods::disk::{Body, Disk, Node};
use deadlock_mods::error::Error;
use deadlock_mods::file_tree::ModFileTree;
use deadlock_mods::manager::{Mod, ModManager};
use deadlock_mods::path::TreePath;
use deadlock_mods::shard::ShardIndex;
use deadlock_mods::vpk_manifest::ProfileVpkManifest;

const ADDONS: &str = "/g/game/citadel/addons";

fn path(text: &str) -> TreePath {
    TreePath::parse(text)
}

fn addons() -> TreePath {
    path(ADDONS)
}

fn strings(v: &[&str]) -> Vec<String> {
    v.iter().map(|s| s.to_string()).collect()
}

struct Tree {
    entries: Vec<(TreePath, Node)>,
    contents: Vec<String>,
}

impl Tree {
    fn new() -> Tree {
        let mut tree = Tree { entries: Vec::new(), contents: Vec::new() };
        tree.dir(ADDONS);
        tree.dir("/store");
        tree
    }

    fn dir(&mut self, text: &str) {
        let whole = path(text);
        for n in 2..=whole.len() {
            self.entries.push((whole.first(n), Node { linked: false, body: Body::Folder }));
        }
    }

    fn put(&mut self, text: &str, body: Body) {
        let whole = path(text);
        self.dir(&whole.parent().unwrap().to_text());
        self.entries.push((whole, Node { linked: false, body }));
    }

    fn file(&mut self, text: &str) {
        self.contents.push(text.rsplit('/').next().unwrap().to_string());
        let id = self.contents.len() as u64 - 1;
        self.put(text, Body::Blob { id, size: 1 });
    }

    fn vpk(&mut self, name: &str) {
        self.file(&format!("{ADDONS}/{name}"));
    }

    fn read(self) -> (Disk, Vec<String>) {
        (Disk::read(self.entries).unwrap(), self.contents)
    }
}

fn was<'a>(disk: &Disk, all: &'a [String], name: &str) -> &'a str {
    match disk.node(&addons().child(name)).unwrap().body {
        Body::Blob { id, .. } => &all[id as usize],
        other => panic!("{name}: {other:?}"),
    }
}

fn manager() -> ModManager {
    let mut manager = ModManager::new(path("/store"));
    manager.game_path = Some(path("/g"));
    manager
}

fn fresh(id: &str, order: Option<u32>) -> Mod {
    Mod {
        id: id.to_string(),
        name: format!("mod {id}"),
        is_map: false,
        installed_vpks: Vec::new(),
        file_tree: None,
        install_order: order,
        original_vpk_names: Vec::new(),
    }
}

fn manifest(disk: &mut Disk) -> ProfileVpkManifest {
    ProfileVpkManifest::load(disk, &addons()).unwrap()
}

#[test]
fn installing_enables_the_files_and_records_the_mod() {
    let mut tree = Tree::new();
    tree.vpk("123_b.vpk");
    tree.vpk("123_a.vpk");
    let (mut disk, all) = tree.read();
    let mut manager = manager();

    let x = manager.install_mod(&mut disk, fresh("123", None), &None).unwrap();

    assert_eq!(x.installed_vpks, strings(&["pak01_dir.vpk", "pak02_dir.vpk"]));
    assert_eq!(x.original_vpk_names, strings(&["a.vpk", "b.vpk"]));
    assert_eq!(x.file_tree.as_ref().unwrap().total_files, 2);
    assert_eq!(was(&disk, &all, "pak01_dir.vpk"), "123_a.vpk");
    assert_eq!(was(&disk, &all, "pak02_dir.vpk"), "123_b.vpk");
    let entry = manifest(&mut disk).entry("123").unwrap();
    assert!(entry.enabled);
    assert_eq!(entry.current_vpks, x.installed_vpks);
    assert_eq!(manager.get_mod("123"), Some(x));
}

#[test]
fn local_mods_are_installed_from_where_they_are_kept() {
    let mut tree = Tree::new();
    tree.file("/store/local-7/files/skin.vpk");
    let (mut disk, all) = tree.read();
    let x = manager().install_mod(&mut disk, fresh("local-7", None), &None).unwrap();
    assert_eq!(x.original_vpk_names, strings(&["skin.vpk"]));
    assert_eq!(was(&disk, &all, "pak01_dir.vpk"), "skin.vpk");
    assert!(disk.is_file(&path("/store/local-7/files/skin.vpk")));
}

#[test]
fn a_mod_without_files_is_not_installed() {
    let (mut disk, _) = Tree::new().read();
    let error = manager().install_mod(&mut disk, fresh("123", None), &None).unwrap_err();
    assert_eq!(
        error,
        Error::ModInvalid(
            "Mod needs to be downloaded first. No VPK files found in addons folder.".to_string()
        )
    );
    let mut nowhere = ModManager::new(path("/store"));
    let error = nowhere.install_mod(&mut disk, fresh("123", None), &None).unwrap_err();
    assert_eq!(error, Error::GamePathNotSet);
    let bad = Some("../up".to_string());
    let error = manager().install_mod(&mut disk, fresh("123", None), &bad).unwrap_err();
    assert_eq!(error.message(), "Invalid profile folder: ../up");
}

#[test]
fn uninstalling_gives_the_files_their_names_back() {
    let mut tree = Tree::new();
    tree.vpk("123_a.vpk");
    let (mut disk, all) = tree.read();
    let mut manager = manager();
    manager.install_mod(&mut disk, fresh("123", None), &None).unwrap();

    manager.uninstall_mod(&mut disk, "123", &Vec::new(), &None).unwrap();

    assert_eq!(was(&disk, &all, "123_a.vpk"), "123_a.vpk");
    assert!(!disk.has(&addons().child("pak01_dir.vpk")));
    let entry = manifest(&mut disk).entry("123").unwrap();
    assert!(!entry.enabled);
    assert_eq!(entry.disabled_vpks, strings(&["123_a.vpk"]));
    assert!(manager.get_mod("123").unwrap().installed_vpks.is_empty());

    // Once more there is nothing to do.
    manager.uninstall_mod(&mut disk, "123", &Vec::new(), &None).unwrap();
    let error = manager.uninstall_mod(&mut disk, "9", &Vec::new(), &None).unwrap_err();
    assert_eq!(
        error.message(),
        "Cannot disable mod 9: no enabled VPK files are recorded for this profile"
    );
}

fn three_mods() -> (Disk, Vec<String>, ModManager) {
    let mut tree = Tree::new();
    for id in ["1", "2", "3"] {
        tree.vpk(&format!("{id}_m.vpk"));
    }
    let (mut disk, all) = tree.read();
    let mut manager = manager();
    for (order, id) in ["1", "2", "3"].iter().enumerate() {
        manager.install_mod(&mut disk, fresh(id, Some(order as u32)), &None).unwrap();
    }
    (disk, all, manager)
}

#[test]
fn mods_load_in_their_order() {
    let (mut disk, all, mut manager) = three_mods();
    assert_eq!(was(&disk, &all, "pak01_dir.vpk"), "1_m.vpk");
    assert_eq!(was(&disk, &all, "pak03_dir.vpk"), "3_m.vpk");

    let order = vec![("1".to_string(), 2), ("2".to_string(), 1), ("3".to_string(), 0)];
    let mods = manager.reorder_mods(&mut disk, &order, &None).unwrap();

    assert_eq!(was(&disk, &all, "pak01_dir.vpk"), "3_m.vpk");
    assert_eq!(was(&disk, &all, "pak02_dir.vpk"), "2_m.vpk");
    assert_eq!(was(&disk, &all, "pak03_dir.vpk"), "1_m.vpk");
    assert_eq!(mods.len(), 3);
    assert_eq!(manifest(&mut disk).entry("3").unwrap().current_vpks, strings(&["pak01_dir.vpk"]));
    assert_eq!(manager.get_mod("1").unwrap().installed_vpks, strings(&["pak03_dir.vpk"]));
}

#[test]
fn ordering_by_remote_id_returns_the_new_names() {
    let (mut disk, all, mut manager) = three_mods();
    let order = vec![
        ("3".to_string(), strings(&["pak03_dir.vpk"]), 0),
        ("1".to_string(), strings(&["pak01_dir.vpk"]), 1),
        ("2".to_string(), strings(&["pak02_dir.vpk"]), 2),
    ];
    let names = manager.reorder_mods_by_remote_id(&mut disk, &order, &None).unwrap();
    assert!(names.contains(&("3".to_string(), strings(&["pak01_dir.vpk"]))));
    assert!(names.contains(&("1".to_string(), strings(&["pak02_dir.vpk"]))));
    assert_eq!(was(&disk, &all, "pak01_dir.vpk"), "3_m.vpk");
}

#[test]
fn removing_takes_the_files_and_the_record() {
    let (mut disk, _, mut manager) = three_mods();
    let removed = manager.remove_mod_vpks(&mut disk, "2", &Vec::new(), &None).unwrap();
    assert_eq!(removed.count, 1);
    assert_eq!(removed.install_order, Some(1));
    assert!(!disk.has(&addons().child("pak02_dir.vpk")));
    assert!(disk.has(&addons().child("pak03_dir.vpk")));
    assert!(manifest(&mut disk).entry("2").is_none());
    assert_eq!(manager.get_mod("2"), None);
    assert!(!disk.has(&addons().child(".dmm-update-2")));

    let again = manager.remove_mod_vpks(&mut disk, "2", &Vec::new(), &None).unwrap();
    assert_eq!(again.count, 0);
    let bad = manager.remove_mod_vpks(&mut disk, "a/b", &Vec::new(), &None).unwrap_err();
    assert_eq!(bad.message(), "Invalid mod ID: a/b");
}

#[test]
fn purging_also_takes_what_is_kept() {
    let mut tree = Tree::new();
    tree.file("/store/local-7/files/skin.vpk");
    let (mut disk, _) = tree.read();
    let mut manager = manager();
    manager.install_mod(&mut disk, fresh("local-7", None), &None).unwrap();
    manager.purge_mod(&mut disk, "local-7", &Vec::new(), &None).unwrap();
    assert!(!disk.has(&path("/store/local-7")));
    assert!(!disk.has(&addons().child("pak01_dir.vpk")));
}

#[test]
fn mods_are_learned_from_the_manifest() {
    let (mut disk, _, _) = three_mods();
    let mut other = manager();
    assert_eq!(other.hydrate_mods_from_manifest(&mut disk, &None), Ok(3));
    assert_eq!(other.get_mod("2").unwrap().installed_vpks, strings(&["pak02_dir.vpk"]));
    assert_eq!(other.hydrate_mods_from_manifest(&mut disk, &None), Ok(0));
}

#[test]
fn mods_are_learned_once_from_an_unsettled_profile() {
    let (mut disk, _, _) = three_mods();
    let stage = addons().child(".dmm-reorder");
    disk.create_dir_all(&stage).unwrap();
    let aside = stage.child("s1__pak02_dir.vpk.pending");
    disk.rename(&addons().child("pak02_dir.vpk"), &aside).unwrap();
    disk.create_dir_all(&addons().child(".dmm-update-9")).unwrap();
    let mut other = manager();
    assert_eq!(other.hydrate_mods_from_manifest(&mut disk, &None), Ok(3));
    assert!(!disk.has(&stage));
    assert_eq!(other.hydrate_mods_from_manifest(&mut disk, &None), Ok(0));
    for id in ["1", "2", "3"] {
        assert!(other.get_mod(id).is_some());
    }
}

#[test]
fn ordered_mods_are_recorded_where_their_files_stand() {
    let (mut disk, all, mut manager) = three_mods();
    disk.copy_file(&addons().child("pak02_dir.vpk"), &addons().child("4_x.vpk")).unwrap();
    disk.copy_file(&addons().child("pak03_dir.vpk"), &addons().child("4_y.vpk")).unwrap();
    disk.copy_file(&addons().child("pak03_dir.vpk"), &addons().child("5_off.vpk")).unwrap();
    let x = manager.install_mod(&mut disk, fresh("4", Some(0)), &None).unwrap();
    let entry = manifest(&mut disk).entry("4").unwrap();
    assert!(entry.enabled);
    assert_eq!(entry.current_vpks, x.installed_vpks);
    assert_eq!(entry.original_vpk_names, strings(&["x.vpk", "y.vpk"]));
    assert_eq!(was(&disk, &all, &entry.current_vpks[0]), "2_m.vpk");
    assert_eq!(was(&disk, &all, &entry.current_vpks[1]), "3_m.vpk");
    assert!(!disk.has(&addons().child("4_x.vpk")));
    assert!(!disk.has(&addons().child("4_y.vpk")));
    assert_eq!(was(&disk, &all, "5_off.vpk"), "3_m.vpk");

    manager.uninstall_mod(&mut disk, "4", &Vec::new(), &None).unwrap();
    assert_eq!(was(&disk, &all, "4_x.vpk"), "2_m.vpk");
    assert_eq!(was(&disk, &all, "4_y.vpk"), "3_m.vpk");
    assert_eq!(was(&disk, &all, "5_off.vpk"), "3_m.vpk");
    let entry = manifest(&mut disk).entry("4").unwrap();
    assert!(!entry.enabled);
    for id in ["1", "2", "3"] {
        let entry = manifest(&mut disk).entry(id).unwrap();
        assert_eq!(was(&disk, &all, &entry.current_vpks[0]), format!("{id}_m.vpk"));
    }
}

#[test]
fn replacing_keeps_the_number_of_a_mod() {
    let mut tree = Tree::new();
    tree.vpk("1_m.vpk");
    tree.file("/new/better.vpk");
    let (mut disk, all) = tree.read();
    let mut manager = manager();
    manager.install_mod(&mut disk, fresh("1", None), &None).unwrap();
    manager
        .replace_mod_vpks(&mut disk, "1", &vec![path("/new/better.vpk")], Vec::new(), &None)
        .unwrap();
    assert_eq!(was(&disk, &all, "pak01_dir.vpk"), "better.vpk");
    assert_eq!(
        manifest(&mut disk).entry("1").unwrap().original_vpk_names,
        strings(&["better.vpk"])
    );
}

#[test]
fn variants_are_switched() {
    let mut tree = Tree::new();
    tree.vpk("1_blue.vpk");
    let (mut disk, _) = tree.read();
    let mut manager = manager();
    manager.install_mod(&mut disk, fresh("1", None), &None).unwrap();
    disk.create_dir_all(&path("/x")).unwrap();
    disk.copy_file(&addons().child("pak01_dir.vpk"), &addons().child("1_red.vpk")).unwrap();

    manager
        .apply_variant_selection(
            &mut disk,
            "1",
            &None,
            &strings(&["pak01_dir.vpk"]),
            &strings(&["blue.vpk"]),
            strings(&["red.vpk"]),
        )
        .unwrap();

    assert!(disk.is_file(&addons().child("pak01_dir.vpk")));
    assert!(disk.is_file(&addons().child("1_blue.vpk")));
    assert!(!disk.has(&addons().child("1_red.vpk")));
    assert_eq!(
        manifest(&mut disk).entry("1").unwrap().original_vpk_names,
        strings(&["red.vpk"])
    );
}

#[test]
fn a_crowded_profile_is_migrated() {
    let mut tree = Tree::new();
    let mut record = ProfileVpkManifest::default();
    for i in 1..=120u32 {
        let name = format!("pak{i:02}_dir.vpk");
        tree.vpk(&name);
        record.mark_enabled(
            &format!("m{i:03}"),
            vec![name],
            strings(&["x.vpk"]),
            Some(i),
            ShardIndex::first(),
        );
    }
    tree.put("/g/game/citadel/addons/.dmm.json", Body::Manifest { manifest: record, size: 1 });
    let (mut disk, _) = tree.read();
    let mut manager = manager();

    assert_eq!(manager.profile_needs_shard_migration(&disk, &None), Ok(true));
    manager.migrate_profile_to_shards(&mut disk, &None).unwrap();

    assert_eq!(manager.profile_needs_shard_migration(&disk, &None), Ok(false));
    assert_eq!(
        manager.apply_profile_gameinfo(&mut disk, &None).unwrap(),
        strings(&["citadel/addons", "citadel/addons2"])
    );
    assert_eq!(manifest(&mut disk).entry("m120").unwrap().shard.get(), 2);
    assert_eq!(manifest(&mut disk).entry("m120").unwrap().current_vpks, strings(&["pak21_dir.vpk"]));
}

#[test]
fn server_paths_come_before_those_of_the_profile() {
    let (mut disk, _) = Tree::new().read();
    let paths = manager()
        .apply_layered_gameinfo(&mut disk, &Some("server_1".to_string()), &None)
        .unwrap();
    assert_eq!(paths, strings(&["citadel/addons/server_1", "citadel/addons"]));
}

#[test]
fn file_trees_mark_what_is_chosen() {
    let tree = ModFileTree::from_options(&strings(&["a.vpk", "b.vpk"]), &strings(&["b.vpk"]));
    assert_eq!(tree.total_files, 2);
    assert!(tree.has_multiple_files);
    assert!(!tree.files[0].is_selected);
    assert!(tree.files[1].is_selected);
}
