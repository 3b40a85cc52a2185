//! Manifests on the disk: reading, writing, checking a whole tree of them.
use crate::text;
use crate::disk::{
    all_paths, can_rename, cannot_text, dirs_possible, exists_at, fresh_manifest, is_below,
    is_dir_at, is_file_at, legal, lemma_filter_members, lemma_prefix_trans, lemma_push_prefix,
    names_in, paths_below, renamed, with_dirs, without_tree, Body, BodyView, Disk, DiskView,
    OpView,
};
use crate::error::{unit_result, Error, ErrorView};
use crate::journal::{decided, group_journal, lemma_transaction, ordered, undoable, went};
use crate::path::{path_text, PathView, TreePath};
use crate::shard::{
    bad_base_text, base_of, internal_artifact, BaseView, ProfileBase, CLEAR_STAGING_DIR,
    REORDER_STAGING_DIR, UPDATE_STAGING_PREFIX,
};
use crate::table::{keys_of, lists_keys, Model};
use crate::text::{dec, joined, starts_with, strip_prefix_spec, texts};
use crate::vpk_manager::staging;
use crate::vpk_manager::staging::{recovered, RecoveryMode};
use crate::vpk_manifest::{
    empty_manifest, entry_paths, path_views, EntryView, ManifestView, ProfileVpkManifest,
    ProfileVpkManifestEntry, CURRENT_MANIFEST_VERSION, MANIFEST_FILENAME,
    MANIFEST_TEMP_FILENAME,
};
use vstd::prelude::*;
use vstd::string::*;

pub mod rereading;
pub mod settling;

verus! {

broadcast use group_journal;

pub open spec fn manifest_path(p: PathView) -> PathView {
    p.push(MANIFEST_FILENAME@)
}

pub open spec fn manifest_temp_path(p: PathView) -> PathView {
    p.push(MANIFEST_TEMP_FILENAME@)
}

pub open spec fn manifest_result(r: Result<ProfileVpkManifest, Error>) -> Result<
    ManifestView,
    ErrorView,
> {
    match r {
        Ok(m) => Ok(m@),
        Err(e) => Err(e@),
    }
}

// ---------------------------------------------------------------------------
// Writing
// ---------------------------------------------------------------------------

/// Writing a manifest: first beside its place, then into it.
pub open spec fn saved(d: DiskView, p: PathView, m: ManifestView) -> (
    DiskView,
    Result<(), ErrorView>,
) {
    let temp = manifest_temp_path(p);
    if !dirs_possible(d, p) {
        (d, Err(ErrorView::Io(cannot_text("create directory"@, p))))
    } else {
        let d1 = with_dirs(d, p);
        if !legal(d1, OpView::Write(temp, m)) {
            (d1, Err(ErrorView::Io(cannot_text("write"@, temp))))
        } else {
            let d2 = d1.insert(temp, fresh_manifest(m));
            if !can_rename(d2, temp, manifest_path(p)) {
                (d2, Err(ErrorView::Io(cannot_text("rename"@, temp))))
            } else {
                (renamed(d2, temp, manifest_path(p)), Ok(()))
            }
        }
    }
}

// ---------------------------------------------------------------------------
// Reading
// ---------------------------------------------------------------------------

/// Settling what an interrupted write left beside a manifest.
pub open spec fn temp_settled(d: DiskView, p: PathView) -> Result<DiskView, ErrorView> {
    let main = manifest_path(p);
    let temp = manifest_temp_path(p);
    if exists_at(d, main) && exists_at(d, temp) {
        if is_file_at(d, temp) {
            Ok(d.remove(temp))
        } else {
            Err(
                ErrorView::InvalidInput(
                    "Failed to remove stale VPK manifest temp file at "@ + path_text(temp) + ": "@
                        + cannot_text("remove"@, temp),
                ),
            )
        }
    } else if !exists_at(d, main) && exists_at(d, temp) {
        if can_rename(d, temp, main) {
            Ok(renamed(d, temp, main))
        } else {
            Err(
                ErrorView::InvalidInput(
                    "Failed to recover VPK manifest temp file from "@ + path_text(temp) + " to "@
                        + path_text(main) + ": "@ + cannot_text("rename"@, temp),
                ),
            )
        }
    } else {
        Ok(d)
    }
}

/// The manifest that stands in a directory; a missing one is empty, and an older
/// one counts as current.
pub open spec fn manifest_at(d: DiskView, p: PathView) -> Result<ManifestView, ErrorView> {
    let main = manifest_path(p);
    if !exists_at(d, main) {
        Ok(empty_manifest())
    } else {
        match d[main].body {
            BodyView::Manifest { manifest, size } => if manifest.version
                > CURRENT_MANIFEST_VERSION {
                Err(
                    ErrorView::InvalidInput(
                        "VPK manifest at "@ + path_text(main) + " uses unsupported version "@ + dec(
                            manifest.version as nat,
                        ),
                    ),
                )
            } else {
                Ok(ManifestView { version: CURRENT_MANIFEST_VERSION, mods: manifest.mods })
            },
            BodyView::Blob { id, size } => Err(
                ErrorView::InvalidInput("Failed to parse VPK manifest at "@ + path_text(main)),
            ),
            BodyView::Folder => Err(ErrorView::Io(cannot_text("read"@, main))),
        }
    }
}

/// What the manifest file of a directory records of its mods; nothing where there is
/// no manifest.
pub open spec fn mods_on_record(d: DiskView, p: PathView) -> Map<Seq<char>, EntryView> {
    if d.contains_key(manifest_path(p)) {
        match d[manifest_path(p)].body {
            BodyView::Manifest { manifest, size } => manifest.mods,
            _ => Map::empty(),
        }
    } else {
        Map::empty()
    }
}

/// What becomes of one name in a profile directory: the leftovers of an update
/// are put back if the mod is still recorded, and dropped if it is not.
pub open spec fn update_recovered(
    d: DiskView,
    b: BaseView,
    p: PathView,
    m: ManifestView,
    name: Seq<char>,
) -> (DiskView, Result<(), ErrorView>) {
    match strip_prefix_spec(name, UPDATE_STAGING_PREFIX@) {
        Some(id) => if !is_dir_at(d, p.push(name)) {
            (d, Ok(()))
        } else if m.mods.contains_key(id) {
            recovered(d, b, p.push(name), RecoveryMode::Strict)
        } else {
            (without_tree(d, p.push(name)), Ok(()))
        },
        None => (d, Ok(())),
    }
}

pub open spec fn updates_recovered(
    d: DiskView,
    b: BaseView,
    p: PathView,
    m: ManifestView,
    names: Seq<Seq<char>>,
    k: int,
) -> (DiskView, Result<(), ErrorView>)
    decreases k,
{
    if k <= 0 {
        (d, Ok(()))
    } else {
        let (d1, r) = updates_recovered(d, b, p, m, names, k - 1);
        match r {
            Err(e) => (d1, Err(e)),
            Ok(_) => update_recovered(d1, b, p, m, names[k - 1]),
        }
    }
}

/// The leftovers of a clearing: final if no mod is recorded, put back otherwise.
pub open spec fn clear_recovered(d: DiskView, b: BaseView, p: PathView, m: ManifestView) -> (
    DiskView,
    Result<(), ErrorView>,
) {
    let stage = p.push(CLEAR_STAGING_DIR@);
    if !is_dir_at(d, stage) {
        (d, Ok(()))
    } else if m.mods == Map::<Seq<char>, EntryView>::empty() {
        (without_tree(d, stage), Ok(()))
    } else {
        recovered(d, b, stage, RecoveryMode::Strict)
    }
}

/// The leftovers of a reordering are put back, where they collide under other
/// numbers.
pub open spec fn reorder_recovered(d: DiskView, b: BaseView, p: PathView) -> (
    DiskView,
    Result<(), ErrorView>,
) {
    let stage = p.push(REORDER_STAGING_DIR@);
    if !is_dir_at(d, stage) {
        (d, Ok(()))
    } else {
        recovered(d, b, stage, RecoveryMode::AvoidEnabledCollisions)
    }
}

/// Settling what interrupted operations left in a profile.
pub open spec fn pending_recovered(d: DiskView, p: PathView, m: ManifestView) -> (
    DiskView,
    Result<(), ErrorView>,
) {
    match base_of(p, false) {
        None => (d, Err(ErrorView::InvalidInput(bad_base_text(p)))),
        Some(b) => {
            let (d1, r1) = clear_recovered(d, b, p, m);
            match r1 {
                Err(e) => (d1, Err(e)),
                Ok(_) => {
                    let (d2, r2) = reorder_recovered(d1, b, p);
                    match r2 {
                        Err(e) => (d2, Err(e)),
                        Ok(_) => if !is_dir_at(d2, p) {
                            (d2, Ok(()))
                        } else {
                            let names = names_in(d2, p);
                            updates_recovered(d2, b, p, m, names, names.len() as int)
                        },
                    }
                },
            }
        },
    }
}

/// Reading the manifest of a profile.
pub open spec fn loaded(d: DiskView, p: PathView) -> (DiskView, Result<ManifestView, ErrorView>) {
    match temp_settled(d, p) {
        Err(e) => (d, Err(e)),
        Ok(d1) => match manifest_at(d1, p) {
            Err(e) => (d1, Err(e)),
            Ok(m) => {
                let (d2, r) = pending_recovered(d1, p, m);
                match r {
                    Err(e) => (d2, Err(e)),
                    Ok(_) => (d2, Ok(m)),
                }
            },
        },
    }
}

proof fn lemma_updates_stop(
    d: DiskView,
    b: BaseView,
    p: PathView,
    m: ManifestView,
    names: Seq<Seq<char>>,
    k: int,
    n: int,
)
    requires
        0 <= k <= n,
        updates_recovered(d, b, p, m, names, k).1 is Err,
    ensures
        updates_recovered(d, b, p, m, names, n) == updates_recovered(d, b, p, m, names, k),
    decreases n - k,
{
    if k < n {
        lemma_updates_stop(d, b, p, m, names, k, n - 1);
    }
}

impl ProfileVpkManifest {
    /// Writes this manifest into a profile directory.
    pub fn save(&self, disk: &mut Disk, addons_path: &TreePath) -> (r: Result<(), Error>)
        ensures
            decided(*old(disk), *final(disk)),
            r is Err ==> undoable(*old(disk), *final(disk)),
            (final(disk)@, unit_result(r)) == saved(old(disk)@, addons_path@, self@),
    {
        disk.create_dir_all(addons_path)?;
        let temp = addons_path.child(MANIFEST_TEMP_FILENAME);
        disk.write_manifest(&temp, self)?;
        disk.replace(&temp, &addons_path.child(MANIFEST_FILENAME))
    }

    /// Writes this manifest into a profile directory, as a whole or not at all.
    pub fn save_whole(&self, disk: &mut Disk, addons_path: &TreePath) -> (r: Result<(), Error>)
        ensures
            ordered(*old(disk), *final(disk)),
            r is Ok ==> went(*old(disk), old(disk)@, final(disk)@, *final(disk)),
            (final(disk)@, unit_result(r)) == saved(old(disk)@, addons_path@, self@),
    {
        disk.settle();
        let ghost before = *disk;
        self.save(disk, addons_path)?;
        let ghost done = *disk;
        disk.commit();
        let ghost committed = *disk;
        disk.settle();
        proof {
            lemma_transaction(before, done, committed, committed, *disk);
        }
        Ok(())
    }

    fn settle_temp(disk: &mut Disk, addons_path: &TreePath) -> (r: Result<(), Error>)
        ensures
            undoable(*old(disk), *final(disk)),
            match r {
                Ok(_) => temp_settled(old(disk)@, addons_path@) == Ok::<DiskView, ErrorView>(
                    final(disk)@,
                ),
                Err(e) => temp_settled(old(disk)@, addons_path@) == Err::<DiskView, ErrorView>(e@)
                    && final(disk)@ == old(disk)@,
            },
    {
        let main = addons_path.child(MANIFEST_FILENAME);
        let temp = addons_path.child(MANIFEST_TEMP_FILENAME);
        if !disk.has(&temp) {
            return Ok(());
        }
        if disk.has(&main) {
            match disk.remove_file(&temp) {
                Ok(_) => Ok(()),
                Err(e) => {
                    let mut m: String =
                        "Failed to remove stale VPK manifest temp file at ".to_owned();
                    m.append(temp.to_text().as_str());
                    m.append(": ");
                    m.append(e.message().as_str());
                    Err(Error::InvalidInput(m))
                },
            }
        } else {
            match disk.rename(&temp, &main) {
                Ok(_) => Ok(()),
                Err(e) => {
                    let mut m: String =
                        "Failed to recover VPK manifest temp file from ".to_owned();
                    m.append(temp.to_text().as_str());
                    m.append(" to ");
                    m.append(main.to_text().as_str());
                    m.append(": ");
                    m.append(e.message().as_str());
                    Err(Error::InvalidInput(m))
                },
            }
        }
    }

    fn read_at(disk: &Disk, addons_path: &TreePath) -> (r: Result<ProfileVpkManifest, Error>)
        ensures
            manifest_result(r) == manifest_at(disk@, addons_path@),
    {
        let main = addons_path.child(MANIFEST_FILENAME);
        match disk.node(&main) {
            None => Ok(ProfileVpkManifest::empty()),
            Some(node) => match node.body {
                Body::Manifest { manifest, size: _ } => {
                    if manifest.version > CURRENT_MANIFEST_VERSION {
                        let mut m: String = "VPK manifest at ".to_owned();
                        m.append(main.to_text().as_str());
                        m.append(" uses unsupported version ");
                        m.append(text::decimal(manifest.version as u64).as_str());
                        return Err(Error::InvalidInput(m));
                    }
                    Ok(
                        ProfileVpkManifest {
                            version: CURRENT_MANIFEST_VERSION,
                            mods: manifest.mods,
                        },
                    )
                },
                Body::Blob { id: _, size: _ } => {
                    let mut m: String = "Failed to parse VPK manifest at ".to_owned();
                    m.append(main.to_text().as_str());
                    Err(Error::InvalidInput(m))
                },
                Body::Folder => {
                    let mut m: String = "Cannot ".to_owned();
                    m.append("read");
                    m.append(" ");
                    m.append(main.to_text().as_str());
                    Err(Error::Io(m))
                },
            },
        }
    }

    fn recover_update(
        disk: &mut Disk,
        base: &ProfileBase,
        addons_path: &TreePath,
        manifest: &ProfileVpkManifest,
        name: &str,
    ) -> (r: Result<(), Error>)
        ensures
            ordered(*old(disk), *final(disk)),
            (final(disk)@, unit_result(r)) == update_recovered(
                old(disk)@,
                base@,
                addons_path@,
                manifest@,
                name@,
            ),
    {
        match text::without_prefix(name, UPDATE_STAGING_PREFIX) {
            Some(mod_id) => {
                let stage = addons_path.child(name);
                if !disk.is_dir(&stage) {
                    Ok(())
                } else if manifest.mods.contains(&mod_id) {
                    staging::recover_staging_directory(disk, base, &stage, RecoveryMode::Strict)
                } else {
                    disk.remove_dir_all(&stage)
                }
            },
            None => Ok(()),
        }
    }

    fn recover_clear(
        disk: &mut Disk,
        base: &ProfileBase,
        addons_path: &TreePath,
        manifest: &ProfileVpkManifest,
    ) -> (r: Result<(), Error>)
        ensures
            ordered(*old(disk), *final(disk)),
            (final(disk)@, unit_result(r)) == clear_recovered(
                old(disk)@,
                base@,
                addons_path@,
                manifest@,
            ),
    {
        let stage = addons_path.child(CLEAR_STAGING_DIR);
        if !disk.is_dir(&stage) {
            return Ok(());
        }
        let count: usize = manifest.mods.len();
        proof {
            let keys = manifest.mods.keys();
            if count == 0 {
                assert forall|id: Seq<char>| !manifest@.mods.contains_key(id) by {
                    assert(!keys.contains(id));
                }
                assert(manifest@.mods =~= Map::<Seq<char>, EntryView>::empty());
            } else {
                assert(keys.contains(keys[0]));
                assert(manifest@.mods.contains_key(keys[0]));
            }
        }
        if count == 0 {
            disk.remove_dir_all(&stage)
        } else {
            staging::recover_staging_directory(disk, base, &stage, RecoveryMode::Strict)
        }
    }

    fn recover_reorder(disk: &mut Disk, base: &ProfileBase, addons_path: &TreePath) -> (r: Result<
        (),
        Error,
    >)
        ensures
            ordered(*old(disk), *final(disk)),
            (final(disk)@, unit_result(r)) == reorder_recovered(
                old(disk)@,
                base@,
                addons_path@,
            ),
    {
        let stage = addons_path.child(REORDER_STAGING_DIR);
        if !disk.is_dir(&stage) {
            return Ok(());
        }
        staging::recover_staging_directory(
            disk,
            base,
            &stage,
            RecoveryMode::AvoidEnabledCollisions,
        )
    }

    fn recover_pending_staging(
        disk: &mut Disk,
        addons_path: &TreePath,
        manifest: &ProfileVpkManifest,
    ) -> (r: Result<(), Error>)
        ensures
            ordered(*old(disk), *final(disk)),
            (final(disk)@, unit_result(r)) == pending_recovered(
                old(disk)@,
                addons_path@,
                manifest@,
            ),
    {
        let base = ProfileBase::from_snapshot(addons_path)?;
        ProfileVpkManifest::recover_clear(disk, &base, addons_path, manifest)?;
        ProfileVpkManifest::recover_reorder(disk, &base, addons_path)?;
        if !disk.is_dir(addons_path) {
            return Ok(());
        }
        let names = disk.names(addons_path);
        let ghost d = disk@;
        let ghost all = names_in(d, addons_path@);
        let ghost b = base@;
        let mut i: usize = 0;
        while i < names.len()
            invariant
                i <= names@.len(),
                texts(names@) == all,
                b == base@,
                ordered(*old(disk), *disk),
                (disk@, Ok::<(), ErrorView>(())) == updates_recovered(
                    d,
                    b,
                    addons_path@,
                    manifest@,
                    all,
                    i as int,
                ),
                updates_recovered(d, b, addons_path@, manifest@, all, all.len() as int)
                    == pending_recovered(old(disk)@, addons_path@, manifest@),
            decreases names@.len() - i,
        {
            assert(all[i as int] == names@[i as int]@);
            match ProfileVpkManifest::recover_update(
                disk,
                &base,
                addons_path,
                manifest,
                names[i].as_str(),
            ) {
                Ok(_) => {},
                Err(e) => {
                    proof {
                        lemma_updates_stop(
                            d,
                            b,
                            addons_path@,
                            manifest@,
                            all,
                            i + 1,
                            all.len() as int,
                        );
                    }
                    return Err(e);
                },
            }
            i = i + 1;
        }
        Ok(())
    }

    /// Reads the manifest of a profile directory, and settles what interrupted
    /// operations left there.
    pub fn load(disk: &mut Disk, addons_path: &TreePath) -> (r: Result<ProfileVpkManifest, Error>)
        ensures
            ordered(*old(disk), *final(disk)),
            (final(disk)@, manifest_result(r)) == loaded(old(disk)@, addons_path@),
    {
        ProfileVpkManifest::settle_temp(disk, addons_path)?;
        let manifest = ProfileVpkManifest::read_at(disk, addons_path)?;
        ProfileVpkManifest::recover_pending_staging(disk, addons_path, &manifest)?;
        Ok(manifest)
    }
}

// ---------------------------------------------------------------------------
// Reading gives back what was written
// ---------------------------------------------------------------------------

/// Nothing in a profile directory is left over from an interrupted operation.
pub open spec fn nothing_staged(d: DiskView, p: PathView) -> bool {
    &&& !is_dir_at(d, p.push(CLEAR_STAGING_DIR@))
    &&& !is_dir_at(d, p.push(REORDER_STAGING_DIR@))
    &&& forall|name: Seq<char>|
        names_in(d, p).contains(name) && starts_with(name, UPDATE_STAGING_PREFIX@)
            ==> !#[trigger] is_dir_at(d, p.push(name))
}

pub proof fn lemma_manifest_names_differ()
    ensures
        MANIFEST_FILENAME@ != MANIFEST_TEMP_FILENAME@,
{
    reveal_strlit(".dmm.json");
    reveal_strlit(".dmm.json.tmp");
    assert(MANIFEST_FILENAME@.len() == 9);
    assert(MANIFEST_TEMP_FILENAME@.len() == 13);
}

/// A manifest that was written is there, and nothing is left beside it.
pub proof fn lemma_saved(d: DiskView, p: PathView, m: ManifestView)
    requires
        saved(d, p, m).1 is Ok,
    ensures
        saved(d, p, m).0 == with_dirs(d, p).remove(manifest_temp_path(p)).insert(
            manifest_path(p),
            fresh_manifest(m),
        ),
        !exists_at(saved(d, p, m).0, manifest_temp_path(p)),
        manifest_path(p) != manifest_temp_path(p),
{
    lemma_manifest_names_differ();
    let temp = manifest_temp_path(p);
    let main = manifest_path(p);
    assert(temp.last() != main.last());
    let d1 = with_dirs(d, p);
    let d2 = d1.insert(temp, fresh_manifest(m));
    assert(d2.remove(temp) =~= d1.remove(temp));
    assert(d2[temp] == fresh_manifest(m));
}

/// Reading a manifest gives back what was written: where nothing is left over
/// from an interrupted operation, a read after a successful write changes
/// nothing and returns the manifest.
pub proof fn law_load_returns_what_save_wrote(d: DiskView, p: PathView, m: ManifestView)
    requires
        saved(d, p, m).1 is Ok,
        m.version == CURRENT_MANIFEST_VERSION,
        base_of(p, false) is Some,
        nothing_staged(saved(d, p, m).0, p),
    ensures
        loaded(saved(d, p, m).0, p) == (saved(d, p, m).0, Ok::<ManifestView, ErrorView>(m)),
{
    let e = saved(d, p, m).0;
    lemma_saved(d, p, m);
    assert(temp_settled(e, p) == Ok::<DiskView, ErrorView>(e));
    assert(manifest_at(e, p) == Ok::<ManifestView, ErrorView>(m));
    if is_dir_at(e, p) {
        let names = names_in(e, p);
        lemma_no_updates(e, base_of(p, false)->0, p, m, names, names.len() as int);
    }
}

pub proof fn lemma_no_updates(
    d: DiskView,
    b: BaseView,
    p: PathView,
    m: ManifestView,
    names: Seq<Seq<char>>,
    k: int,
)
    requires
        0 <= k <= names.len(),
        names == names_in(d, p),
        nothing_staged(d, p),
    ensures
        updates_recovered(d, b, p, m, names, k) == (d, Ok::<(), ErrorView>(())),
    decreases k,
{
    if k > 0 {
        lemma_no_updates(d, b, p, m, names, k - 1);
        let name = names[k - 1];
        assert(names.contains(name));
        if starts_with(name, UPDATE_STAGING_PREFIX@) {
            assert(!is_dir_at(d, p.push(name)));
        }
    }
}

/// A manifest from before the current version is read as a current one, with
/// the same mods.
pub proof fn law_older_manifests_are_upgraded(d: DiskView, p: PathView, m: ManifestView, size: u64)
    requires
        exists_at(d, manifest_path(p)),
        d[manifest_path(p)].body == (BodyView::Manifest { manifest: m, size }),
        m.version <= CURRENT_MANIFEST_VERSION,
    ensures
        manifest_at(d, p) == Ok::<ManifestView, ErrorView>(
            ManifestView { version: CURRENT_MANIFEST_VERSION, mods: m.mods },
        ),
{
}

// ---------------------------------------------------------------------------
// Checking a tree
// ---------------------------------------------------------------------------

/// The files of an entry that are not there.
pub open spec fn missing_paths(d: DiskView, b: BaseView, e: EntryView) -> Seq<PathView> {
    entry_paths(e, b).filter(|p: PathView| !is_file_at(d, p))
}

pub open spec fn path_texts(v: Seq<PathView>) -> Seq<Seq<char>> {
    v.map_values(|p: PathView| path_text(p))
}

/// The first of the first `k` mods that lacks a file, and the complaint about it.
pub open spec fn manifest_fault(d: DiskView, b: BaseView, m: ManifestView, k: int) -> Option<
    ErrorView,
>
    decreases k,
{
    if k <= 0 {
        None
    } else {
        match manifest_fault(d, b, m, k - 1) {
            Some(e) => Some(e),
            None => {
                let id = keys_of::<String, EntryView>(m.mods)[k - 1];
                let missing = missing_paths(d, b, m.mods[id]);
                if missing.len() > 0 {
                    Some(
                        ErrorView::ModInvalid(
                            "Manifest entry "@ + id + " references missing VPKs: "@ + joined(
                                path_texts(missing),
                                ", "@,
                            ),
                        ),
                    )
                } else {
                    None
                }
            },
        }
    }
}

proof fn lemma_fault_stops(d: DiskView, b: BaseView, m: ManifestView, k: int, n: int)
    requires
        0 <= k <= n,
        manifest_fault(d, b, m, k) is Some,
    ensures
        manifest_fault(d, b, m, n) == manifest_fault(d, b, m, k),
    decreases n - k,
{
    if k < n {
        lemma_fault_stops(d, b, m, k, n - 1);
    }
}

/// Checking one directory: if it holds a manifest, every file that the manifest
/// records is there.
pub open spec fn profile_checked(d: DiskView, p: PathView) -> (DiskView, Result<(), ErrorView>) {
    if !is_dir_at(d, p) {
        (d, Err(ErrorView::Io(cannot_text("list"@, p))))
    } else if !is_file_at(d, manifest_path(p)) {
        (d, Ok(()))
    } else {
        match base_of(p, false) {
            None => (d, Err(ErrorView::InvalidInput(bad_base_text(p)))),
            Some(b) => {
                let (d1, r) = loaded(d, p);
                match r {
                    Err(e) => (d1, Err(e)),
                    Ok(m) => match manifest_fault(
                        d1,
                        b,
                        m,
                        keys_of::<String, EntryView>(m.mods).len() as int,
                    ) {
                        Some(e) => (d1, Err(e)),
                        None => (d1, Ok(())),
                    },
                }
            },
        }
    }
}

pub open spec fn profiles_checked(d: DiskView, dirs: Seq<PathView>, k: int) -> (
    DiskView,
    Result<(), ErrorView>,
)
    decreases k,
{
    if k <= 0 {
        (d, Ok(()))
    } else {
        let (d1, r) = profiles_checked(d, dirs, k - 1);
        match r {
            Err(e) => (d1, Err(e)),
            Ok(_) => profile_checked(d1, dirs[k - 1]),
        }
    }
}

proof fn lemma_profiles_stop(d: DiskView, dirs: Seq<PathView>, k: int, n: int)
    requires
        0 <= k <= n,
        profiles_checked(d, dirs, k).1 is Err,
    ensures
        profiles_checked(d, dirs, n) == profiles_checked(d, dirs, k),
    decreases n - k,
{
    if k < n {
        lemma_profiles_stop(d, dirs, k, n - 1);
    }
}

/// No link stands on the way from `root` down to `p`.
pub open spec fn reached_plainly(d: DiskView, root: PathView, p: PathView) -> bool {
    forall|k: int| root.len() < k <= p.len() ==> !(#[trigger] d[p.take(k)]).linked
}

/// The directories below `root` that are reached without a link.
pub open spec fn plain_dirs(d: DiskView, root: PathView) -> Seq<PathView> {
    paths_below(d, root).filter(
        |p: PathView| is_dir_at(d, p) && reached_plainly(d, root, p),
    )
}

/// Checking every profile of a tree of shard roots.
pub open spec fn tree_checked(d: DiskView, root: PathView) -> (DiskView, Result<(), ErrorView>) {
    let addons = root.push("addons"@);
    if !is_dir_at(d, addons) {
        (
            d,
            Err(
                ErrorView::ModInvalid(
                    "Snapshot has no addons directory at "@ + path_text(addons),
                ),
            ),
        )
    } else {
        let dirs = seq![addons] + plain_dirs(d, addons);
        profiles_checked(d, dirs, dirs.len() as int)
    }
}

/// Nothing below `root` belongs to an operation under way or cut short.
pub open spec fn tidy(d: DiskView, root: PathView) -> bool {
    forall|q: PathView| is_below(root, q) && #[trigger] d.contains_key(q) ==> !internal_artifact(
        q.last(),
    )
}

pub proof fn lemma_tidy_profile(d: DiskView, root: PathView, p: PathView)
    requires
        tidy(d, root),
        root.is_prefix_of(p),
    ensures
        profile_checked(d, p).0 == d,
{
    assert(internal_artifact(MANIFEST_TEMP_FILENAME@));
    assert forall|name: Seq<char>| #[trigger] internal_artifact(name) implies !d.contains_key(
        p.push(name),
    ) by {
        lemma_push_prefix(p, name);
        lemma_prefix_trans(root, p, p.push(name));
        assert(p.push(name).last() == name);
        assert(is_below(root, p.push(name)));
    }
    assert(temp_settled(d, p) == Ok::<DiskView, ErrorView>(d));
    assert(internal_artifact(CLEAR_STAGING_DIR@));
    assert(internal_artifact(REORDER_STAGING_DIR@));
    assert forall|name: Seq<char>|
        names_in(d, p).contains(name) && starts_with(name, UPDATE_STAGING_PREFIX@) implies
        !#[trigger] is_dir_at(d, p.push(name)) by {
        assert(internal_artifact(name));
    }
    match (manifest_at(d, p), base_of(p, false)) {
        (Ok(m), Some(b)) => {
            let names = names_in(d, p);
            lemma_no_updates(d, b, p, m, names, names.len() as int);
        },
        _ => {},
    }
}

pub proof fn lemma_tidy_profiles(d: DiskView, root: PathView, dirs: Seq<PathView>, k: int)
    requires
        tidy(d, root),
        0 <= k <= dirs.len(),
        forall|i: int| 0 <= i < dirs.len() ==> root.is_prefix_of(#[trigger] dirs[i]),
    ensures
        profiles_checked(d, dirs, k).0 == d,
    decreases k,
{
    if k > 0 {
        lemma_tidy_profiles(d, root, dirs, k - 1);
        lemma_tidy_profile(d, root, dirs[k - 1]);
    }
}

/// Checking a tree in which nothing is under way or cut short changes nothing.
pub proof fn law_checking_a_tidy_tree_changes_nothing(d: DiskView, root: PathView)
    requires
        tidy(d, root.push("addons"@)),
    ensures
        tree_checked(d, root).0 == d,
{
    let addons = root.push("addons"@);
    let all = all_paths(d);
    let pred1 = |p: PathView| is_below(addons, p);
    let pred2 = |p: PathView| is_dir_at(d, p) && reached_plainly(d, addons, p);
    lemma_filter_members(all, pred1);
    lemma_filter_members(paths_below(d, addons), pred2);
    let dirs = seq![addons] + plain_dirs(d, addons);
    assert forall|i: int| 0 <= i < dirs.len() implies addons.is_prefix_of(#[trigger] dirs[i]) by {
        if i > 0 {
            assert(plain_dirs(d, addons).contains(plain_dirs(d, addons)[i - 1]));
        } else {
            assert(addons =~= addons.take(addons.len() as int));
        }
    }
    lemma_tidy_profiles(d, addons, dirs, dirs.len() as int);
}

/// Whether no link stands on the way from `root` down to `p`.
pub fn is_reached_plainly(disk: &Disk, root: &TreePath, p: &TreePath) -> (r: bool)
    requires
        forall|k: int| root@.len() < k <= p@.len() ==> disk@.contains_key(#[trigger] p@.take(k)),
    ensures
        r == reached_plainly(disk@, root@, p@),
{
    let n: usize = p.len();
    let mut k: usize = root.len();
    while k < n
        invariant
            n == p@.len(),
            root@.len() <= k,
            k <= n || k == root@.len(),
            forall|j: int|
                root@.len() < j <= p@.len() ==> disk@.contains_key(#[trigger] p@.take(j)),
            forall|j: int| root@.len() < j <= k && j <= n ==> !(#[trigger] disk@[p@.take(j)]).linked,
        decreases n - k,
    {
        k = k + 1;
        match disk.node(&p.first(k)) {
            Some(node) => {
                if node.linked {
                    assert(disk@[p@.take(k as int)].linked);
                    return false;
                }
            },
            None => {},
        }
    }
    true
}

/// The paths from a directory down to something below it are in the tree.
pub proof fn lemma_way_down(d: DiskView, root: PathView, p: PathView)
    requires
        crate::disk::rooted(d),
        d.contains_key(p),
        root.is_prefix_of(p),
        crate::path::path_parent(root) is Some,
    ensures
        forall|k: int| root.len() < k <= p.len() ==> d.contains_key(#[trigger] p.take(k)),
{
    assert forall|k: int| root.len() < k <= p.len() implies d.contains_key(
        #[trigger] p.take(k),
    ) by {
        let q = p.take(k);
        assert(q =~= p.take(q.len() as int));
        assert(root.len() > 0);
        assert(q.len() > 1);
        crate::disk::lemma_below_exists(d, q, p);
    }
}

fn list_plain_dirs(disk: &Disk, root: &TreePath) -> (r: Vec<TreePath>)
    requires
        crate::path::path_parent(root@) is Some,
    ensures
        path_views(r@) == plain_dirs(disk@, root@),
{
    let below = disk.below(root);
    let ghost all = paths_below(disk@, root@);
    let ghost pred = |p: PathView| is_dir_at(disk@, p) && reached_plainly(disk@, root@, p);
    let mut r: Vec<TreePath> = Vec::new();
    let mut i: usize = 0;
    proof {
        reveal(Seq::filter);
        assert(all.take(0).filter(pred) =~= Seq::<PathView>::empty());
        assert(path_views(r@) =~= Seq::<PathView>::empty());
    }
    while i < below.len()
        invariant
            i <= below@.len(),
            path_views(below@) == all,
            all == paths_below(disk@, root@),
            crate::disk::rooted(disk@),
            crate::path::path_parent(root@) is Some,
            lists_keys::<TreePath, crate::disk::NodeView>(crate::disk::all_paths(disk@), disk@),
            pred == (|p: PathView| is_dir_at(disk@, p) && reached_plainly(disk@, root@, p)),
            path_views(r@) == all.take(i as int).filter(pred),
        decreases below@.len() - i,
    {
        proof {
            assert(all[i as int] == below@[i as int]@);
            assert(all.contains(all[i as int]));
            crate::disk::lemma_filter_members(
                crate::disk::all_paths(disk@),
                |p: PathView| crate::disk::is_below(root@, p),
            );
            assert(crate::disk::all_paths(disk@).contains(all[i as int]));
            lemma_way_down(disk@, root@, all[i as int]);
            assert(all.take(i + 1) =~= all.take(i as int).push(all[i as int]));
            crate::disk::lemma_filter_push(all.take(i as int), all[i as int], pred);
        }
        if disk.is_dir(&below[i]) && is_reached_plainly(disk, root, &below[i]) {
            let q = below[i].duplicate();
            assert(path_views(r@.push(q)) =~= path_views(r@).push(q@));
            r.push(q);
        }
        i = i + 1;
    }
    assert(all.take(all.len() as int) =~= all);
    r
}

impl ProfileVpkManifestEntry {
    /// The texts of the paths of this entry's files that are not there.
    fn missing_files(&self, disk: &Disk, base: &ProfileBase) -> (r: Vec<String>)
        ensures
            texts(r@) == path_texts(missing_paths(disk@, base@, self@)),
            r@.len() == missing_paths(disk@, base@, self@).len(),
    {
        let paths = self.file_paths(base);
        let ghost all = entry_paths(self@, base@);
        let ghost pred = |p: PathView| !is_file_at(disk@, p);
        let mut r: Vec<String> = Vec::new();
        let mut i: usize = 0;
        proof {
            reveal(Seq::filter);
            assert(all.take(0).filter(pred) =~= Seq::<PathView>::empty());
            assert(texts(r@) =~= path_texts(Seq::<PathView>::empty()));
        }
        while i < paths.len()
            invariant
                i <= paths@.len(),
                path_views(paths@) == all,
                pred == (|p: PathView| !is_file_at(disk@, p)),
                texts(r@) == path_texts(all.take(i as int).filter(pred)),
            decreases paths@.len() - i,
        {
            let ghost so_far = all.take(i as int).filter(pred);
            proof {
                assert(all[i as int] == paths@[i as int]@);
                assert(all.take(i + 1) =~= all.take(i as int).push(all[i as int]));
                crate::disk::lemma_filter_push(all.take(i as int), all[i as int], pred);
                assert(path_texts(so_far.push(all[i as int])) =~= path_texts(so_far).push(
                    path_text(all[i as int]),
                ));
            }
            if !disk.is_file(&paths[i]) {
                let s = paths[i].to_text();
                proof {
                    text::lemma_texts_push(r@, s);
                }
                r.push(s);
            }
            i = i + 1;
        }
        proof {
            assert(all.take(all.len() as int) =~= all);
            assert(texts(r@).len() == r@.len());
        }
        r
    }
}

impl ProfileVpkManifest {
    fn find_fault(&self, disk: &Disk, base: &ProfileBase) -> (r: Option<Error>)
        ensures
            match r {
                Some(e) => manifest_fault(
                    disk@,
                    base@,
                    self@,
                    keys_of::<String, EntryView>(self@.mods).len() as int,
                ) == Some(e@),
                None => manifest_fault(
                    disk@,
                    base@,
                    self@,
                    keys_of::<String, EntryView>(self@.mods).len() as int,
                ) is None,
            },
    {
        let n: usize = self.mods.len();
        let ghost keys = keys_of::<String, EntryView>(self@.mods);
        let mut i: usize = 0;
        while i < n
            invariant
                i <= n == keys.len(),
                keys == keys_of::<String, EntryView>(self@.mods),
                keys == self.mods.keys(),
                manifest_fault(disk@, base@, self@, i as int) is None,
            decreases n - i,
        {
            let missing = self.mods.value_at(i).missing_files(disk, base);
            if missing.len() > 0 {
                let mut m: String = "Manifest entry ".to_owned();
                m.append(self.mods.key_at(i).as_str());
                m.append(" references missing VPKs: ");
                m.append(text::join_texts(&missing, ", ").as_str());
                proof {
                    assert(manifest_fault(disk@, base@, self@, i + 1) is Some);
                    lemma_fault_stops(disk@, base@, self@, i + 1, n as int);
                }
                return Some(Error::ModInvalid(m));
            }
            i = i + 1;
        }
        None
    }

    fn check_profile(disk: &mut Disk, profile_path: &TreePath) -> (r: Result<(), Error>)
        ensures
            ordered(*old(disk), *final(disk)),
            (final(disk)@, unit_result(r)) == profile_checked(old(disk)@, profile_path@),
    {
        if !disk.is_dir(profile_path) {
            return Err(staging::cannot_list(profile_path));
        }
        if !disk.is_file(&profile_path.child(MANIFEST_FILENAME)) {
            return Ok(());
        }
        let base = ProfileBase::from_snapshot(profile_path)?;
        let manifest = ProfileVpkManifest::load(disk, profile_path)?;
        match manifest.find_fault(disk, &base) {
            Some(e) => Err(e),
            None => Ok(()),
        }
    }

    /// Checks every profile of a tree of shard roots. `root` holds `addons`,
    /// `addons2` and so on.
    pub fn validate_tree(disk: &mut Disk, root: &TreePath) -> (r: Result<(), Error>)
        ensures
            ordered(*old(disk), *final(disk)),
            (final(disk)@, unit_result(r)) == tree_checked(old(disk)@, root@),
    {
        let addons_root = root.child("addons");
        if !disk.is_dir(&addons_root) {
            let mut m: String = "Snapshot has no addons directory at ".to_owned();
            m.append(addons_root.to_text().as_str());
            return Err(Error::ModInvalid(m));
        }
        proof {
            reveal_strlit("addons");
            assert(addons_root@.last() == "addons"@);
        }
        let rest = list_plain_dirs(disk, &addons_root);
        ProfileVpkManifest::check_first(disk, &addons_root, &rest)
    }

    /// Checks a directory, then those of a list.
    fn check_first(disk: &mut Disk, first: &TreePath, rest: &Vec<TreePath>) -> (r: Result<
        (),
        Error,
    >)
        ensures
            ordered(*old(disk), *final(disk)),
            ({
                let dirs = seq![first@] + path_views(rest@);
                (final(disk)@, unit_result(r)) == profiles_checked(
                    old(disk)@,
                    dirs,
                    dirs.len() as int,
                )
            }),
    {
        let ghost d = disk@;
        let ghost dirs = seq![first@] + path_views(rest@);
        assert(profiles_checked(d, dirs, 0) == (d, Ok::<(), ErrorView>(())));
        match ProfileVpkManifest::check_profile(disk, first) {
            Ok(_) => {},
            Err(e) => {
                proof {
                    assert(profiles_checked(d, dirs, 1).1 is Err);
                    lemma_profiles_stop(d, dirs, 1, dirs.len() as int);
                }
                return Err(e);
            },
        }
        let mut i: usize = 0;
        while i < rest.len()
            invariant
                i <= rest@.len(),
                d == old(disk)@,
                dirs == seq![first@] + path_views(rest@),
                ordered(*old(disk), *disk),
                (disk@, Ok::<(), ErrorView>(())) == profiles_checked(d, dirs, i + 1),
            decreases rest@.len() - i,
        {
            assert(dirs[i + 1] == rest@[i as int]@);
            match ProfileVpkManifest::check_profile(disk, &rest[i]) {
                Ok(_) => {},
                Err(e) => {
                    proof {
                        assert(profiles_checked(d, dirs, i + 2).1 is Err);
                        lemma_profiles_stop(d, dirs, i + 2, dirs.len() as int);
                    }
                    return Err(e);
                },
            }
            i = i + 1;
        }
        Ok(())
    }
}

} // verus!
