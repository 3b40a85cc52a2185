//! Installing, uninstalling, removing and replacing mods.
use super::{profile_base, with_repo, ManagerView, Mod, ModManager, ModView, RepoView};
use super::ordering::without_prefixes;
use super::reorder::{chosen_shard, profile_migrated, profile_reordered};
use crate::{order, text};
use crate::disk::{cannot_text, exists_at, is_dir_at, is_file_at, without_tree, Disk, DiskView};
use crate::error::{error_text, unit_result, Error, ErrorView};
use crate::file_tree::{tree_of, ModFileTree};
use crate::journal::{group_journal, lemma_transaction, ordered, transacted, undoable, went};
use crate::manifest_store::{loaded, saved};
use crate::order::{key_values, sorted_set};
use crate::path::{path_join, path_name, PathView, TreePath};
use crate::shard::{
    legacy_locator_of, shard_dir_of, BaseView, ProfileBase, ShardIndex, ShardLocator,
    UPDATE_STAGING_PREFIX,
};
use crate::table::{keys_of, lists_keys, Model};
use crate::text::{opt_text, starts_with, texts};
use crate::vpk_manager::{operations, staging, MissingVpkPolicy, VpkManager};
use crate::vpk_manager::copying::{all_copied, replaced_vpks};
use crate::vpk_manager::operations::{disabled, enabled, file_names, prefixed_found};
use crate::vpk_manager::reorder::pruned_shards;
use crate::vpk_manager::staging::{claimed, run_plan, staging_plan};
use crate::vpk_manifest::{
    entry_or_blank, entry_paths, marked_disabled, marked_enabled, path_views, shard_of_mod,
    without_mod, EntryView, ManifestView, ProfileVpkManifest, ProfileVpkManifestEntry,
};
use vstd::prelude::*;
use vstd::string::*;

verus! {

broadcast use group_journal;

/// A failure to write the manifest, after which the files could not be put back.
pub open spec fn not_rolled_back(save: ErrorView, what: Seq<char>, rollback: ErrorView) -> ErrorView {
    ErrorView::RollbackFailed(
        "Failed to save manifest: "@ + error_text(save) + what + error_text(rollback),
    )
}

fn rollback_failure(save: &Error, what: &str, rollback: &Error) -> (r: Error)
    ensures
        r@ == not_rolled_back(save@, what@, rollback@),
{
    let mut m: String = "Failed to save manifest: ".to_owned();
    m.append(save.message().as_str());
    m.append(what);
    m.append(rollback.message().as_str());
    Error::RollbackFailed(m)
}

// ---------------------------------------------------------------------------
// Installing
// ---------------------------------------------------------------------------

/// Where the files of a local mod are kept.
pub open spec fn local_files(store: PathView, id: Seq<char>) -> PathView {
    path_join(store, id).push("files"@)
}

/// The disabled files of a mod. Those of a local mod that has none in the profile
/// are copied there from where they are kept.
pub open spec fn files_found(d: DiskView, store: PathView, b: BaseView, id: Seq<char>) -> (
    DiskView,
    Result<Seq<Seq<char>>, ErrorView>,
) {
    match prefixed_found(d, b.path, id) {
        Err(e) => (d, Err(e)),
        Ok(names) => if names.len() == 0 && starts_with(id, "local-"@) && exists_at(
            d,
            local_files(store, id),
        ) {
            all_copied(d, local_files(store, id), b.path, id)
        } else {
            (d, Ok(names))
        },
    }
}

/// A mod whose files have been enabled.
pub open spec fn installed_mod(
    m: ModView,
    installed: Seq<Seq<char>>,
    original: Seq<Seq<char>>,
) -> ModView {
    ModView {
        installed,
        original,
        file_tree: if m.file_tree is None && original.len() > 0 {
            Some(tree_of(original, original))
        } else {
            m.file_tree
        },
        ..m
    }
}

/// Writing the manifest of a mod just enabled; if that fails, the mod is disabled
/// again.
pub open spec fn install_recorded(
    d: DiskView,
    b: BaseView,
    m: ManifestView,
    x: ModView,
    target: nat,
) -> (DiskView, Result<(), ErrorView>) {
    let m1 = marked_enabled(m, x.id, x.installed, x.original, x.install_order, target);
    let (d1, s) = saved(d, b.path, m1);
    match s {
        Ok(_) => (d1, Ok(())),
        Err(e) => {
            let (d2, r) = disabled(
                d1,
                shard_dir_of(b, target),
                b.path,
                x.id,
                x.installed,
                x.original,
                MissingVpkPolicy::Strict,
            );
            match r {
                Ok(_) => (d2, Err(e)),
                Err(f) => (
                    d2,
                    Err(not_rolled_back(e, ". Failed to disable newly enabled VPKs: "@, f)),
                ),
            }
        },
    }
}

/// Enabling the files of a mod and recording it.
pub open spec fn files_installed(
    d: DiskView,
    b: BaseView,
    x: ModView,
    names: Seq<Seq<char>>,
) -> (DiskView, Result<ModView, ErrorView>) {
    let (d1, l) = loaded(d, b.path);
    match l {
        Err(e) => (d1, Err(e)),
        Ok(m) => match chosen_shard(d1, b, None, names.len()) {
            Err(e) => (d1, Err(e)),
            Ok(target) => {
                let (d2, r) = enabled(d1, b.path, shard_dir_of(b, target), x.id, names);
                match r {
                    Err(e) => (d2, Err(e)),
                    Ok(out) => {
                        let y = installed_mod(x, out, without_prefixes(x.id, names));
                        let (d3, s) = install_recorded(d2, b, m, y, target);
                        match s {
                            Err(e) => (d3, Err(e)),
                            Ok(_) => (d3, Ok(y)),
                        }
                    },
                }
            },
        },
    }
}

/// Putting a mod just installed into its order. A failure here does not undo the
/// installation.
pub open spec fn install_ordered(
    d: DiskView,
    m: ManagerView,
    b: BaseView,
    folder: Option<Seq<char>>,
    x: ModView,
) -> (DiskView, RepoView, ModView) {
    if x.install_order is None {
        (d, m.repo, x)
    } else {
        let (d1, repo, r) = profile_reordered(d, m, folder);
        match r {
            Err(_) => (d1, repo, x),
            Ok(_) => {
                let (d2, l) = loaded(d1, b.path);
                match l {
                    Err(_) => (d2, repo, x),
                    Ok(after) => if after.mods.contains_key(x.id) {
                        let y = ModView { installed: after.mods[x.id].current, ..x };
                        (d2, repo.insert(y.id, y), y)
                    } else {
                        (d2, repo, x)
                    },
                }
            },
        }
    }
}

/// Installing a mod: enabling its files in the last active shard.
pub open spec fn mod_installed(
    d: DiskView,
    m: ManagerView,
    x: ModView,
    folder: Option<Seq<char>>,
) -> (DiskView, RepoView, Result<ModView, ErrorView>) {
    match profile_base(m.game_path, folder) {
        Err(e) => (d, m.repo, Err(e)),
        Ok(b) => {
            let (d1, f) = files_found(d, m.mods_store, b, x.id);
            match f {
                Err(e) => (d1, m.repo, Err(e)),
                Ok(names) => if names.len() == 0 {
                    (
                        d1,
                        m.repo,
                        Err(
                            ErrorView::ModInvalid(
                                "Mod needs to be downloaded first. No VPK files found in addons folder."@,
                            ),
                        ),
                    )
                } else {
                    let (d2, r) = files_installed(d1, b, x, names);
                    match r {
                        Err(e) => (d2, m.repo, Err(e)),
                        Ok(y) => {
                            let known = with_repo(m, m.repo.insert(y.id, y));
                            let (d3, repo, z) = install_ordered(d2, known, b, folder, y);
                            (d3, repo, Ok(z))
                        },
                    }
                },
            }
        },
    }
}

/// Once the manifest of a profile is read, either nothing is changed, or everything is
/// as a whole.
pub open spec fn changed_as_whole(
    a: Disk,
    m: ManagerView,
    folder: Option<Seq<char>>,
    b: Disk,
    ok: bool,
) -> bool {
    ok ==> {
        let d = loaded(a@, profile_base(m.game_path, folder)->Ok_0.path).0;
        b@ == d || went(a, d, b@, b)
    }
}

/// Of what installing a mod does, enabling and recording its files is done as a
/// whole or not at all, and stays whatever fails after it.
pub open spec fn installed_as_whole(
    a: Disk,
    m: ManagerView,
    x: ModView,
    folder: Option<Seq<char>>,
    b: Disk,
) -> bool {
    let base = profile_base(m.game_path, folder)->Ok_0;
    let (d, found) = files_found(a@, m.mods_store, base, x.id);
    went(a, loaded(d, base.path).0, files_installed(d, base, x, found->Ok_0).0, b)
}

pub open spec fn mod_result(r: Result<Mod, Error>) -> Result<ModView, ErrorView> {
    match r {
        Ok(m) => Ok(m@),
        Err(e) => Err(e@),
    }
}

fn strip_prefixes(id: &str, names: &Vec<String>) -> (r: Vec<String>)
    ensures
        texts(r@) == without_prefixes(id@, texts(names@)),
        r@.len() == names@.len(),
{
    let prefix = operations::prefixed_name(id, "");
    proof {
        reveal_strlit("");
        assert(prefix@ =~= id@ + "_"@);
    }
    let ghost want = without_prefixes(id@, texts(names@));
    let mut r: Vec<String> = Vec::new();
    let mut i: usize = 0;
    while i < names.len()
        invariant
            i <= names@.len(),
            prefix@ == id@ + "_"@,
            want == without_prefixes(id@, texts(names@)),
            r@.len() == i,
            forall|j: int| 0 <= j < i ==> (#[trigger] r@[j])@ == want[j],
        decreases names@.len() - i,
    {
        assert(texts(names@)[i as int] == names@[i as int]@);
        let s = match text::without_prefix(names[i].as_str(), prefix.as_str()) {
            Some(s) => s,
            None => names[i].clone(),
        };
        r.push(s);
        i = i + 1;
    }
    assert(texts(r@) =~= want);
    r
}

impl ModManager {
    fn find_files(&self, disk: &mut Disk, base: &ProfileBase, id: &str) -> (r: Result<
        Vec<String>,
        Error,
    >)
        ensures
            ordered(*old(disk), *final(disk)),
            (final(disk)@, crate::error::texts_result(r)) == files_found(
                old(disk)@,
                self@.mods_store,
                base@,
                id@,
            ),
    {
        let manager = VpkManager::new();
        let names = manager.find_prefixed_vpks(disk, base.path(), id)?;
        assert(texts(names@).len() == names@.len());
        if names.len() == 0 && text::begins(id, "local-") {
            let dir = self.mods_store.join(id).child("files");
            if disk.has(&dir) {
                return manager.copy_vpks_with_prefix(disk, &dir, base.path(), id);
            }
        }
        Ok(names)
    }

    fn record_install(
        disk: &mut Disk,
        base: &ProfileBase,
        manifest: ProfileVpkManifest,
        x: &Mod,
        target: ShardIndex,
    ) -> (r: Result<(), Error>)
        ensures
            ordered(*old(disk), *final(disk)),
            r is Ok ==> forall|a: Disk| #[trigger]
                undoable(a, *old(disk)) ==> transacted(a, *final(disk)),
            (final(disk)@, unit_result(r)) == install_recorded(
                old(disk)@,
                base@,
                manifest@,
                x@,
                target.number(),
            ),
    {
        let mut manifest = manifest;
        manifest.mark_enabled(
            x.id.as_str(),
            text::copy_texts(&x.installed_vpks),
            text::copy_texts(&x.original_vpk_names),
            x.install_order,
            target,
        );
        match manifest.save(disk, base.path()) {
            Ok(_) => {
                let ghost done = *disk;
                disk.commit();
                let ghost committed = *disk;
                disk.settle();
                proof {
                    assert forall|a: Disk| #[trigger] undoable(a, *old(disk)) implies transacted(
                        a,
                        *disk,
                    ) by {
                        lemma_transaction(a, done, committed, committed, *disk);
                    }
                }
                Ok(())
            },
            Err(save_error) => {
                match VpkManager::new().disable_vpks_in(
                    disk,
                    &base.shard_dir(target),
                    base.path(),
                    x.id.as_str(),
                    &x.installed_vpks,
                    &x.original_vpk_names,
                    MissingVpkPolicy::Strict,
                ) {
                    Ok(_) => Err(save_error),
                    Err(e) => Err(
                        rollback_failure(
                            &save_error,
                            ". Failed to disable newly enabled VPKs: ",
                            &e,
                        ),
                    ),
                }
            },
        }
    }

    fn install_files(disk: &mut Disk, base: &ProfileBase, deadlock_mod: Mod, names: &Vec<String>) -> (r:
        Result<Mod, Error>)
        ensures
            ordered(*old(disk), *final(disk)),
            r is Ok ==> went(
                *old(disk),
                loaded(old(disk)@, base@.path).0,
                final(disk)@,
                *final(disk),
            ),
            (final(disk)@, mod_result(r)) == files_installed(
                old(disk)@,
                base@,
                deadlock_mod@,
                texts(names@),
            ),
    {
        let mut x = deadlock_mod;
        let ghost before = x@;
        let manifest = ProfileVpkManifest::load(disk, base.path())?;
        assert(texts(names@).len() == names@.len());
        let target = ModManager::choose_shard_for(disk, base, None, names.len())?;
        disk.settle();
        let installed = VpkManager::new().enable_vpks_in(
            disk,
            base.path(),
            &base.shard_dir(target),
            x.id.as_str(),
            names,
        )?;
        let original = strip_prefixes(x.id.as_str(), names);
        let ghost iv = texts(installed@);
        let ghost ov = texts(original@);
        assert(ov.len() == original@.len());
        if x.file_tree.is_none() && original.len() > 0 {
            x.file_tree = Some(ModFileTree::from_options(&original, &original));
        }
        x.installed_vpks = installed;
        x.original_vpk_names = original;
        assert(x@ == installed_mod(before, iv, ov));
        ModManager::record_install(disk, base, manifest, &x, target)?;
        Ok(x)
    }

    fn order_install(
        &mut self,
        disk: &mut Disk,
        base: &ProfileBase,
        profile_folder: &Option<String>,
        x: Mod,
    ) -> (r: Mod)
        ensures
            ordered(*old(disk), *final(disk)),
            ({
                let (d, repo, y) = install_ordered(
                    old(disk)@,
                    old(self)@,
                    base@,
                    opt_text(*profile_folder),
                    x@,
                );
                final(disk)@ == d && final(self)@ == with_repo(old(self)@, repo) && r@ == y
            }),
    {
        assert(with_repo(self@, self@.repo) == self@);
        if x.install_order.is_none() {
            return x;
        }
        let mut x = x;
        match self.reorder_all_mods_for_profile(disk, profile_folder) {
            Ok(_) => match ProfileVpkManifest::load(disk, base.path()) {
                Ok(after) => match after.entry(x.id.as_str()) {
                    Some(e) => {
                        x.installed_vpks = e.current_vpks;
                        self.add_mod(x.copy_value());
                    },
                    None => {},
                },
                Err(_) => {},
            },
            Err(_) => {},
        }
        x
    }

    /// Installs (enables) a mod in a profile.
    pub fn install_mod(
        &mut self,
        disk: &mut Disk,
        deadlock_mod: Mod,
        profile_folder: &Option<String>,
    ) -> (r: Result<Mod, Error>)
        ensures
            ordered(*old(disk), *final(disk)),
            ({
                let (d, repo, out) = mod_installed(
                    old(disk)@,
                    old(self)@,
                    deadlock_mod@,
                    opt_text(*profile_folder),
                );
                final(disk)@ == d && final(self)@ == with_repo(old(self)@, repo) && mod_result(r)
                    == out
            }),
            r is Ok ==> installed_as_whole(
                *old(disk),
                old(self)@,
                deadlock_mod@,
                opt_text(*profile_folder),
                *final(disk),
            ),
    {
        assert(with_repo(self@, self@.repo) == self@);
        let base = self.get_addons_path(profile_folder)?;
        let names = self.find_files(disk, &base, deadlock_mod.id.as_str())?;
        assert(texts(names@).len() == names@.len());
        if names.len() == 0 {
            return Err(
                Error::ModInvalid(
                    "Mod needs to be downloaded first. No VPK files found in addons folder.".to_owned(),
                ),
            );
        }
        let x = ModManager::install_files(disk, &base, deadlock_mod, &names)?;
        self.add_mod(x.copy_value());
        Ok(self.order_install(disk, &base, profile_folder, x))
    }
}

// ---------------------------------------------------------------------------
// Uninstalling
// ---------------------------------------------------------------------------

/// The names that go with a mod's enabled files: the original ones, or where none
/// are known those of the files themselves.
pub open spec fn names_or(original: Seq<Seq<char>>, current: Seq<Seq<char>>) -> Seq<Seq<char>> {
    if original.len() > 0 {
        original
    } else {
        current
    }
}

/// What there is to disable of a mod.
pub enum ToDisable {
    Files { installed: Seq<Seq<char>>, original: Seq<Seq<char>> },
    AlreadyDisabled,
    Nothing,
}

/// The enabled files of a mod: as the manifest records them, else as the caller
/// knows them, else as the manager does.
pub open spec fn files_to_disable(
    m: ManifestView,
    repo: RepoView,
    id: Seq<char>,
    vpks: Seq<Seq<char>>,
) -> ToDisable {
    let e = m.mods[id];
    if m.mods.contains_key(id) && e.current.len() > 0 {
        ToDisable::Files { installed: e.current, original: names_or(e.original, e.current) }
    } else if vpks.len() > 0 {
        ToDisable::Files { installed: file_names(vpks), original: file_names(vpks) }
    } else if repo.contains_key(id) && repo[id].installed.len() > 0 {
        ToDisable::Files {
            installed: repo[id].installed,
            original: names_or(repo[id].original, repo[id].installed),
        }
    } else if m.mods.contains_key(id) && !e.enabled && e.disabled.len() > 0 {
        ToDisable::AlreadyDisabled
    } else {
        ToDisable::Nothing
    }
}

/// Writing the manifest of a mod just disabled; if that fails, the mod is enabled
/// again.
pub open spec fn uninstall_recorded(
    d: DiskView,
    b: BaseView,
    m: ManifestView,
    id: Seq<char>,
    names: Seq<Seq<char>>,
    original: Seq<Seq<char>>,
) -> (DiskView, Result<(), ErrorView>) {
    let (d1, s) = saved(d, b.path, marked_disabled(m, id, names, original));
    match s {
        Ok(_) => (pruned_shards(d1, b), Ok(())),
        Err(e) => {
            let (d2, r) = enabled(d1, b.path, shard_dir_of(b, shard_of_mod(m, id)), id, names);
            match r {
                Ok(_) => (d2, Err(e)),
                Err(f) => (d2, Err(not_rolled_back(e, ". Failed to re-enable VPKs: "@, f))),
            }
        },
    }
}

/// The known mods once a mod was disabled.
pub open spec fn repo_disabled(repo: RepoView, id: Seq<char>) -> RepoView {
    if repo.contains_key(id) {
        repo.insert(repo[id].id, ModView { installed: Seq::empty(), ..repo[id] })
    } else {
        repo
    }
}

/// Disabling a mod of which the manifest has been read.
pub open spec fn mod_uninstalled_from(
    d: DiskView,
    b: BaseView,
    repo: RepoView,
    m: ManifestView,
    id: Seq<char>,
    vpks: Seq<Seq<char>>,
) -> (DiskView, RepoView, Result<(), ErrorView>) {
    match files_to_disable(m, repo, id, vpks) {
        ToDisable::AlreadyDisabled => (d, repo, Ok(())),
        ToDisable::Nothing => (
            d,
            repo,
            Err(
                ErrorView::ModInvalid(
                    "Cannot disable mod "@ + id
                        + ": no enabled VPK files are recorded for this profile"@,
                ),
            ),
        ),
        ToDisable::Files { installed, original } => {
            let (d1, r) = disabled(
                d,
                shard_dir_of(b, shard_of_mod(m, id)),
                b.path,
                id,
                installed,
                original,
                MissingVpkPolicy::Reconcile,
            );
            match r {
                Err(e) => (d1, repo, Err(e)),
                Ok(names) => {
                    let (d2, s) = uninstall_recorded(d1, b, m, id, names, original);
                    match s {
                        Err(e) => (d2, repo, Err(e)),
                        Ok(_) => (d2, repo_disabled(repo, id), Ok(())),
                    }
                },
            }
        },
    }
}

/// Uninstalling (disabling) a mod.
pub open spec fn mod_uninstalled(
    d: DiskView,
    m: ManagerView,
    id: Seq<char>,
    vpks: Seq<Seq<char>>,
    folder: Option<Seq<char>>,
) -> (DiskView, RepoView, Result<(), ErrorView>) {
    match profile_base(m.game_path, folder) {
        Err(e) => (d, m.repo, Err(e)),
        Ok(b) => if !exists_at(d, b.path) {
            (d, m.repo, Err(ErrorView::GamePathNotSet))
        } else {
            let (d1, l) = loaded(d, b.path);
            match l {
                Err(e) => (d1, m.repo, Err(e)),
                Ok(manifest) => mod_uninstalled_from(d1, b, m.repo, manifest, id, vpks),
            }
        },
    }
}

enum Disabling {
    Files(Vec<String>, Vec<String>),
    AlreadyDisabled,
    Nothing,
}

spec fn disabling_view(x: Disabling) -> ToDisable {
    match x {
        Disabling::Files(a, b) => ToDisable::Files { installed: texts(a@), original: texts(b@) },
        Disabling::AlreadyDisabled => ToDisable::AlreadyDisabled,
        Disabling::Nothing => ToDisable::Nothing,
    }
}

fn names_or_files(original: &Vec<String>, current: &Vec<String>) -> (r: Vec<String>)
    ensures
        texts(r@) == names_or(texts(original@), texts(current@)),
{
    assert(texts(original@).len() == original@.len());
    if original.len() > 0 {
        text::copy_texts(original)
    } else {
        text::copy_texts(current)
    }
}

impl ModManager {
    fn find_files_to_disable(
        &self,
        manifest: &ProfileVpkManifest,
        mod_id: &str,
        vpks: &Vec<String>,
    ) -> (r: Disabling)
        ensures
            disabling_view(r) == files_to_disable(
                manifest@,
                self@.repo,
                mod_id@,
                texts(vpks@),
            ),
    {
        let entry = manifest.entry(mod_id);
        match &entry {
            Some(e) => {
                assert(e@.current.len() == e.current_vpks@.len());
                if e.current_vpks.len() > 0 {
                    return Disabling::Files(
                        text::copy_texts(&e.current_vpks),
                        names_or_files(&e.original_vpk_names, &e.current_vpks),
                    );
                }
            },
            None => {},
        }
        assert(texts(vpks@).len() == vpks@.len());
        if vpks.len() > 0 {
            return Disabling::Files(
                operations::vpk_filenames(vpks),
                operations::vpk_filenames(vpks),
            );
        }
        match self.get_mod(mod_id) {
            Some(m) => {
                assert(m@.installed.len() == m.installed_vpks@.len());
                if m.installed_vpks.len() > 0 {
                    return Disabling::Files(
                        text::copy_texts(&m.installed_vpks),
                        names_or_files(&m.original_vpk_names, &m.installed_vpks),
                    );
                }
            },
            None => {},
        }
        match &entry {
            Some(e) => {
                assert(e@.disabled.len() == e.disabled_vpks@.len());
                if !e.enabled && e.disabled_vpks.len() > 0 {
                    return Disabling::AlreadyDisabled;
                }
            },
            None => {},
        }
        Disabling::Nothing
    }

    fn record_uninstall(
        disk: &mut Disk,
        base: &ProfileBase,
        manifest: ProfileVpkManifest,
        mod_id: &str,
        names: &Vec<String>,
        original: Vec<String>,
    ) -> (r: Result<(), Error>)
        ensures
            ordered(*old(disk), *final(disk)),
            r is Ok ==> forall|a: Disk| #[trigger]
                undoable(a, *old(disk)) ==> transacted(a, *final(disk)),
            (final(disk)@, unit_result(r)) == uninstall_recorded(
                old(disk)@,
                base@,
                manifest@,
                mod_id@,
                texts(names@),
                texts(original@),
            ),
    {
        let shard = manifest.shard_of(mod_id);
        let mut manifest = manifest;
        manifest.mark_disabled(mod_id, text::copy_texts(names), original);
        match manifest.save(disk, base.path()) {
            Ok(_) => {
                let ghost done = *disk;
                disk.commit();
                let ghost committed = *disk;
                VpkManager::prune_empty_shard_dirs(disk, base);
                let ghost cleared = *disk;
                disk.settle();
                proof {
                    assert forall|a: Disk| #[trigger] undoable(a, *old(disk)) implies transacted(
                        a,
                        *disk,
                    ) by {
                        lemma_transaction(a, done, committed, cleared, *disk);
                    }
                }
                Ok(())
            },
            Err(save_error) => {
                match VpkManager::new().enable_vpks_in(
                    disk,
                    base.path(),
                    &base.shard_dir(shard),
                    mod_id,
                    names,
                ) {
                    Ok(_) => Err(save_error),
                    Err(e) => Err(
                        rollback_failure(&save_error, ". Failed to re-enable VPKs: ", &e),
                    ),
                }
            },
        }
    }

    /// Uninstalls (disables) a mod of a profile.
    pub fn uninstall_mod(
        &mut self,
        disk: &mut Disk,
        mod_id: &str,
        vpks: &Vec<String>,
        profile_folder: &Option<String>,
    ) -> (r: Result<(), Error>)
        ensures
            ordered(*old(disk), *final(disk)),
            ({
                let (d, repo, out) = mod_uninstalled(
                    old(disk)@,
                    old(self)@,
                    mod_id@,
                    texts(vpks@),
                    opt_text(*profile_folder),
                );
                final(disk)@ == d && final(self)@ == with_repo(old(self)@, repo) && unit_result(r)
                    == out
            }),
            changed_as_whole(*old(disk), old(self)@, opt_text(*profile_folder), *final(disk), r is Ok),
    {
        assert(with_repo(self@, self@.repo) == self@);
        let base = self.get_addons_path(profile_folder)?;
        if !disk.has(base.path()) {
            return Err(Error::GamePathNotSet);
        }
        let manifest = ProfileVpkManifest::load(disk, base.path())?;
        match self.find_files_to_disable(&manifest, mod_id, vpks) {
            Disabling::AlreadyDisabled => Ok(()),
            Disabling::Nothing => {
                let mut m: String = "Cannot disable mod ".to_owned();
                m.append(mod_id);
                m.append(": no enabled VPK files are recorded for this profile");
                Err(Error::ModInvalid(m))
            },
            Disabling::Files(installed, original) => {
                let dir = base.shard_dir(manifest.shard_of(mod_id));
                disk.settle();
                let names = VpkManager::new().disable_vpks_in(
                    disk,
                    &dir,
                    base.path(),
                    mod_id,
                    &installed,
                    &original,
                    MissingVpkPolicy::Reconcile,
                )?;
                ModManager::record_uninstall(disk, &base, manifest, mod_id, &names, original)?;
                match self.get_mod(mod_id) {
                    Some(known) => {
                        let mut known = known;
                        known.installed_vpks = Vec::new();
                        assert(texts(known.installed_vpks@) =~= Seq::<Seq<char>>::empty());
                        self.add_mod(known);
                    },
                    None => {},
                }
                Ok(())
            },
        }
    }
}

// ---------------------------------------------------------------------------
// Removing
// ---------------------------------------------------------------------------

/// What was removed of a mod.
#[derive(Debug)]
pub struct RemovedModVpks {
    pub count: usize,
    pub install_order: Option<u32>,
}

/// Where files of a mod may be: as the manifest records them, under its disabled
/// names, and where the caller or the manager takes them to be.
pub open spec fn mod_candidates(
    b: BaseView,
    m: ManifestView,
    id: Seq<char>,
    found: Seq<Seq<char>>,
    fallback: Seq<Seq<char>>,
) -> Seq<PathView> {
    let recorded = if m.mods.contains_key(id) {
        entry_paths(m.mods[id], b)
    } else {
        Seq::empty()
    };
    recorded + found.map_values(|n: Seq<char>| path_join(b.path, n)) + fallback.map_values(
        |n: Seq<char>|
            path_join(
                shard_dir_of(b, legacy_locator_of(n).shard),
                legacy_locator_of(n).filename,
            ),
    )
}

/// The files of a mod, in the order of their paths.
pub open spec fn mod_sources(d: DiskView, candidates: Seq<PathView>) -> Seq<PathView> {
    sorted_set::<TreePath>(candidates.filter(|p: PathView| is_file_at(d, p)))
}

/// The names under which files of a mod may be known besides the manifest.
pub open spec fn fallback_names(repo: RepoView, id: Seq<char>, given: Seq<Seq<char>>) -> Seq<
    Seq<char>,
> {
    if repo.contains_key(id) {
        given + repo[id].installed
    } else {
        given
    }
}

/// Setting the files of a mod aside, taking it out of the manifest, and removing
/// the files. Until the manifest is written, every file can go back.
pub open spec fn sources_removed(
    d: DiskView,
    b: BaseView,
    m: ManifestView,
    id: Seq<char>,
    sources: Seq<PathView>,
) -> Result<DiskView, ErrorView> {
    let stage = b.path.push(UPDATE_STAGING_PREFIX@ + id);
    match claimed(d, stage) {
        Err(e) => Err(e),
        Ok(d1) => match staging_plan(b, stage, sources, sources.len() as int) {
            Err(e) => Err(e),
            Ok(steps) => match run_plan(d1, steps) {
                Err(e) => Err(e),
                Ok(d2) => {
                    let (d3, s) = saved(d2, b.path, without_mod(m, id));
                    match s {
                        Err(e) => Err(e),
                        Ok(_) => Ok(
                            pruned_shards(
                                if is_dir_at(d3, stage) {
                                    without_tree(d3, stage)
                                } else {
                                    d3
                                },
                                b,
                            ),
                        ),
                    }
                },
            },
        },
    }
}

/// Removing the files of a mod.
pub open spec fn vpks_removed(
    d: DiskView,
    m: ManagerView,
    id: Seq<char>,
    given: Seq<Seq<char>>,
    folder: Option<Seq<char>>,
) -> (DiskView, RepoView, Result<(nat, Option<u32>), ErrorView>) {
    if !super::safe_folder(id) {
        (d, m.repo, Err(ErrorView::InvalidInput("Invalid mod ID: "@ + id)))
    } else {
        match profile_base(m.game_path, folder) {
            Err(e) => (d, m.repo, Err(e)),
            Ok(b) => {
                let (d1, l) = loaded(d, b.path);
                match l {
                    Err(e) => (d1, m.repo, Err(e)),
                    Ok(manifest) => match prefixed_found(d1, b.path, id) {
                        Err(e) => (d1, m.repo, Err(e)),
                        Ok(found) => {
                            let order = entry_or_blank(manifest, id).order;
                            let sources = mod_sources(
                                d1,
                                mod_candidates(
                                    b,
                                    manifest,
                                    id,
                                    found,
                                    fallback_names(m.repo, id, given),
                                ),
                            );
                            if sources.len() == 0 && !manifest.mods.contains_key(id) {
                                (d1, m.repo.remove(id), Ok((0, order)))
                            } else {
                                match sources_removed(d1, b, manifest, id, sources) {
                                    Err(e) => (d1, m.repo, Err(e)),
                                    Ok(d2) => (
                                        d2,
                                        m.repo.remove(id),
                                        Ok((sources.len(), order)),
                                    ),
                                }
                            }
                        },
                    },
                }
            },
        }
    }
}

pub open spec fn removed_result(r: Result<RemovedModVpks, Error>) -> Result<
    (nat, Option<u32>),
    ErrorView,
> {
    match r {
        Ok(x) => Ok((x.count as nat, x.install_order)),
        Err(e) => Err(e@),
    }
}

/// Removing a mod for good: its files in the profile, and what is kept of it.
pub open spec fn mod_purged(
    d: DiskView,
    m: ManagerView,
    id: Seq<char>,
    vpks: Seq<Seq<char>>,
    folder: Option<Seq<char>>,
) -> (DiskView, RepoView, Result<(), ErrorView>) {
    let (d1, repo, r) = vpks_removed(d, m, id, vpks, folder);
    let dir = path_join(m.mods_store, id);
    match r {
        Err(e) => (d1, repo, Err(e)),
        Ok(_) => if !exists_at(d1, dir) {
            (d1, repo, Ok(()))
        } else if is_dir_at(d1, dir) {
            (without_tree(d1, dir), repo, Ok(()))
        } else {
            (d1, repo, Err(ErrorView::Io(cannot_text("remove"@, dir))))
        },
    }
}

/// Once the manifest of a profile is read, the files of a mod are removed from it as a
/// whole or not at all, before what is kept of the mod is.
pub open spec fn purged_as_whole(
    a: Disk,
    m: ManagerView,
    id: Seq<char>,
    vpks: Seq<Seq<char>>,
    folder: Option<Seq<char>>,
    b: Disk,
) -> bool {
    let d = loaded(a@, profile_base(m.game_path, folder)->Ok_0.path).0;
    let e = vpks_removed(a@, m, id, vpks, folder).0;
    e == d || went(a, d, e, b)
}

/// Those of a list of paths at which a file stands.
fn existing_files(disk: &Disk, paths: &Vec<TreePath>) -> (r: Vec<TreePath>)
    ensures
        path_views(r@) == path_views(paths@).filter(|p: PathView| is_file_at(disk@, p)),
{
    let ghost all = path_views(paths@);
    let ghost pred = |p: PathView| is_file_at(disk@, p);
    let mut r: Vec<TreePath> = Vec::new();
    let mut i: usize = 0;
    proof {
        reveal(Seq::filter);
        assert(all.take(0).filter(pred) =~= Seq::<PathView>::empty());
        assert(path_views(r@) =~= Seq::<PathView>::empty());
    }
    while i < paths.len()
        invariant
            i <= paths@.len(),
            all == path_views(paths@),
            pred == (|p: PathView| is_file_at(disk@, p)),
            path_views(r@) == all.take(i as int).filter(pred),
        decreases paths@.len() - i,
    {
        proof {
            assert(all[i as int] == paths@[i as int]@);
            assert(all.take(i + 1) =~= all.take(i as int).push(all[i as int]));
            crate::disk::lemma_filter_push(all.take(i as int), all[i as int], pred);
        }
        if disk.is_file(&paths[i]) {
            let q = paths[i].duplicate();
            assert(path_views(r@.push(q)) =~= path_views(r@).push(q@));
            r.push(q);
        }
        i = i + 1;
    }
    assert(all.take(all.len() as int) =~= all);
    r
}

fn list_candidates(
    base: &ProfileBase,
    entry: &Option<ProfileVpkManifestEntry>,
    manifest: &ProfileVpkManifest,
    mod_id: &str,
    found: &Vec<String>,
    fallback: &Vec<String>,
) -> (r: Vec<TreePath>)
    requires
        match entry {
            Some(e) => manifest@.mods.contains_key(mod_id@) && e@ == manifest@.mods[mod_id@],
            None => !manifest@.mods.contains_key(mod_id@),
        },
    ensures
        path_views(r@) == mod_candidates(
            base@,
            manifest@,
            mod_id@,
            texts(found@),
            texts(fallback@),
        ),
{
    let ghost m = manifest@;
    let mut r: Vec<TreePath> = match entry {
        Some(e) => e.file_paths(base),
        None => Vec::new(),
    };
    let ghost recorded = path_views(r@);
    proof {
        if !m.mods.contains_key(mod_id@) {
            assert(recorded =~= Seq::<PathView>::empty());
        }
    }
    let ghost second = texts(found@).map_values(|n: Seq<char>| path_join(base@.path, n));
    let ghost third = texts(fallback@).map_values(
        |n: Seq<char>|
            path_join(
                shard_dir_of(base@, legacy_locator_of(n).shard),
                legacy_locator_of(n).filename,
            ),
    );
    let mut i: usize = 0;
    assert(path_views(r@) =~= recorded + second.take(0));
    while i < found.len()
        invariant
            i <= found@.len(),
            second == texts(found@).map_values(|n: Seq<char>| path_join(base@.path, n)),
            path_views(r@) == recorded + second.take(i as int),
        decreases found@.len() - i,
    {
        let q = base.path().join(found[i].as_str());
        proof {
            assert(texts(found@)[i as int] == found@[i as int]@);
            assert(second[i as int] == q@);
            assert(path_views(r@.push(q)) =~= path_views(r@).push(q@));
            assert(recorded + second.take(i + 1) =~= (recorded + second.take(i as int)).push(q@));
        }
        r.push(q);
        i = i + 1;
    }
    let ghost so_far = recorded + second;
    assert(second.take(second.len() as int) =~= second);
    let mut j: usize = 0;
    assert(path_views(r@) =~= so_far + third.take(0));
    while j < fallback.len()
        invariant
            j <= fallback@.len(),
            third == texts(fallback@).map_values(
                |n: Seq<char>|
                    path_join(
                        shard_dir_of(base@, legacy_locator_of(n).shard),
                        legacy_locator_of(n).filename,
                    ),
            ),
            path_views(r@) == so_far + third.take(j as int),
        decreases fallback@.len() - j,
    {
        let q = base.locator_path(&ShardLocator::from_legacy_name(fallback[j].as_str()));
        proof {
            assert(texts(fallback@)[j as int] == fallback@[j as int]@);
            assert(third[j as int] == q@);
            assert(path_views(r@.push(q)) =~= path_views(r@).push(q@));
            assert(so_far + third.take(j + 1) =~= (so_far + third.take(j as int)).push(q@));
        }
        r.push(q);
        j = j + 1;
    }
    assert(third.take(third.len() as int) =~= third);
    r
}

impl ModManager {
    fn list_fallback_names(&self, mod_id: &str, given: &Vec<String>) -> (r: Vec<String>)
        ensures
            texts(r@) == fallback_names(self@.repo, mod_id@, texts(given@)),
    {
        let mut r = text::copy_texts(given);
        match self.get_mod(mod_id) {
            Some(m) => {
                let mut more = text::copy_texts(&m.installed_vpks);
                let ghost a = texts(r@);
                let ghost b = texts(more@);
                r.append(&mut more);
                assert(texts(r@) =~= a + b);
            },
            None => {},
        }
        r
    }

    fn remove_sources(
        disk: &mut Disk,
        base: &ProfileBase,
        manifest: ProfileVpkManifest,
        mod_id: &str,
        sources: &Vec<TreePath>,
    ) -> (r: Result<(), Error>)
        ensures
            ordered(*old(disk), *final(disk)),
            ({
                let out = sources_removed(
                    old(disk)@,
                    base@,
                    manifest@,
                    mod_id@,
                    path_views(sources@),
                );
                match r {
                    Ok(_) => out == Ok::<DiskView, ErrorView>(final(disk)@) && went(
                        *old(disk),
                        old(disk)@,
                        final(disk)@,
                        *final(disk),
                    ),
                    Err(e) => out == Err::<DiskView, ErrorView>(e@) && final(disk)@ == old(disk)@,
                }
            }),
    {
        disk.settle();
        let ghost before = *disk;
        let mut manifest = manifest;
        let mut name: String = UPDATE_STAGING_PREFIX.to_owned();
        name.append(mod_id);
        let stage = base.path().child(name.as_str());
        let mut work = disk.duplicate();
        staging::claim(&mut work, &stage)?;
        let steps = staging::plan_staging(base, &stage, sources)?;
        staging::carry_out(&mut work, &steps)?;
        manifest.remove_mod(mod_id);
        manifest.save(&mut work, base.path())?;
        let ghost done = work;
        work.commit();
        let ghost committed = work;
        work.clear_away(&stage);
        VpkManager::prune_empty_shard_dirs(&mut work, base);
        let ghost cleared = work;
        work.settle();
        proof {
            lemma_transaction(before, done, committed, cleared, work);
        }
        *disk = work;
        Ok(())
    }

    /// Removes the files of a mod from a profile, for an update or for good. They
    /// are set aside first, and removed once the manifest is written without the
    /// mod.
    pub fn remove_mod_vpks(
        &mut self,
        disk: &mut Disk,
        mod_id: &str,
        fallback_vpks: &Vec<String>,
        profile_folder: &Option<String>,
    ) -> (r: Result<RemovedModVpks, Error>)
        ensures
            ordered(*old(disk), *final(disk)),
            ({
                let (d, repo, out) = vpks_removed(
                    old(disk)@,
                    old(self)@,
                    mod_id@,
                    texts(fallback_vpks@),
                    opt_text(*profile_folder),
                );
                final(disk)@ == d && final(self)@ == with_repo(old(self)@, repo) && removed_result(
                    r,
                ) == out
            }),
            changed_as_whole(*old(disk), old(self)@, opt_text(*profile_folder), *final(disk), r is Ok),
    {
        assert(with_repo(self@, self@.repo) == self@);
        if !super::is_safe_profile_folder(mod_id) {
            let mut m: String = "Invalid mod ID: ".to_owned();
            m.append(mod_id);
            return Err(Error::InvalidInput(m));
        }
        let base = self.get_addons_path(profile_folder)?;
        let manifest = ProfileVpkManifest::load(disk, base.path())?;
        let entry = manifest.entry(mod_id);
        let install_order: Option<u32> = match &entry {
            Some(e) => e.order,
            None => None,
        };
        let known: bool = entry.is_some();
        let found = VpkManager::new().find_prefixed_vpks(disk, base.path(), mod_id)?;
        let fallback = self.list_fallback_names(mod_id, fallback_vpks);
        let candidates = list_candidates(&base, &entry, &manifest, mod_id, &found, &fallback);
        let files = existing_files(disk, &candidates);
        assert(key_values(files@) =~= path_views(files@));
        let sources = order::sort_unique(&files);
        assert(key_values(sources@) =~= path_views(sources@));
        assert(path_views(sources@).len() == sources@.len());
        let count: usize = sources.len();
        if count == 0 && !known {
            self.forget_mod(mod_id);
            return Ok(RemovedModVpks { count: 0, install_order });
        }
        ModManager::remove_sources(disk, &base, manifest, mod_id, &sources)?;
        self.forget_mod(mod_id);
        Ok(RemovedModVpks { count, install_order })
    }

    /// Removes a mod for good.
    pub fn purge_mod(
        &mut self,
        disk: &mut Disk,
        mod_id: &str,
        vpks: &Vec<String>,
        profile_folder: &Option<String>,
    ) -> (r: Result<(), Error>)
        ensures
            ordered(*old(disk), *final(disk)),
            ({
                let (d, repo, out) = mod_purged(
                    old(disk)@,
                    old(self)@,
                    mod_id@,
                    texts(vpks@),
                    opt_text(*profile_folder),
                );
                final(disk)@ == d && final(self)@ == with_repo(old(self)@, repo) && unit_result(r)
                    == out
            }),
            r is Ok ==> purged_as_whole(
                *old(disk),
                old(self)@,
                mod_id@,
                texts(vpks@),
                opt_text(*profile_folder),
                *final(disk),
            ),
    {
        self.remove_mod_vpks(disk, mod_id, vpks, profile_folder)?;
        let dir = self.mods_store.join(mod_id);
        if disk.has(&dir) {
            disk.remove_dir_all(&dir)?;
        }
        Ok(())
    }
}

// ---------------------------------------------------------------------------
// Hydrating
// ---------------------------------------------------------------------------

/// A mod as far as its manifest entry tells.
pub open spec fn mod_of_entry(id: Seq<char>, e: EntryView) -> ModView {
    ModView {
        id,
        name: id,
        is_map: false,
        installed: if e.enabled {
            e.current
        } else {
            Seq::empty()
        },
        file_tree: None,
        install_order: e.order,
        original: e.original,
    }
}

/// The known mods together with those that only the manifest records.
pub open spec fn repo_hydrated(repo: RepoView, m: ManifestView) -> RepoView {
    Map::new(
        |id: Seq<char>| repo.contains_key(id) || m.mods.contains_key(id),
        |id: Seq<char>|
            if repo.contains_key(id) {
                repo[id]
            } else {
                mod_of_entry(id, m.mods[id])
            },
    )
}

/// The recorded mods that are not known, by id.
pub open spec fn unknown_ids(repo: RepoView, m: ManifestView) -> Seq<Seq<char>> {
    keys_of::<String, EntryView>(m.mods).filter(|id: Seq<char>| !repo.contains_key(id))
}

/// Learning the mods of a profile from its manifest.
pub open spec fn mods_hydrated(d: DiskView, m: ManagerView, folder: Option<Seq<char>>) -> (
    DiskView,
    RepoView,
    Result<nat, ErrorView>,
) {
    let (d1, repo, r) = profile_migrated(d, m, folder);
    match r {
        Err(e) => (d1, repo, Err(e)),
        Ok(_) => match profile_base(m.game_path, folder) {
            Err(e) => (d1, repo, Err(e)),
            Ok(b) => {
                let (d2, l) = loaded(d1, b.path);
                match l {
                    Err(e) => (d2, repo, Err(e)),
                    Ok(manifest) => (
                        d2,
                        repo_hydrated(repo, manifest),
                        Ok(unknown_ids(repo, manifest).len()),
                    ),
                }
            },
        },
    }
}

pub open spec fn count_result(r: Result<usize, Error>) -> Result<nat, ErrorView> {
    match r {
        Ok(n) => Ok(n as nat),
        Err(e) => Err(e@),
    }
}

impl ModManager {
    fn hydrate_from(&mut self, manifest: &ProfileVpkManifest) -> (r: usize)
        ensures
            final(self)@ == with_repo(old(self)@, repo_hydrated(old(self)@.repo, manifest@)),
            r == unknown_ids(old(self)@.repo, manifest@).len(),
    {
        let ghost repo = self@.repo;
        let ghost before = self@;
        let ghost m = manifest@;
        let n: usize = manifest.mods.len();
        let ghost keys = manifest.mods.keys();
        let ghost pred = |id: Seq<char>| !repo.contains_key(id);
        let mut count: usize = 0;
        let mut i: usize = 0;
        proof {
            reveal(Seq::filter);
            assert(keys.take(0).filter(pred) =~= Seq::<Seq<char>>::empty());
        }
        while i < n
            invariant
                i <= n == keys.len(),
                before == old(self)@,
                repo == before.repo,
                m == manifest@,
                keys == manifest.mods.keys(),
                lists_keys::<String, EntryView>(keys, m.mods),
                pred == (|id: Seq<char>| !repo.contains_key(id)),
                count == keys.take(i as int).filter(pred).len(),
                count <= i,
                self@ == with_repo(before, self@.repo),
                forall|id: Seq<char>| #[trigger]
                    self@.repo.contains_key(id) <==> repo.contains_key(id) || keys.take(
                        i as int,
                    ).contains(id),
                forall|id: Seq<char>| #[trigger]
                    self@.repo.contains_key(id) ==> self@.repo[id] == (if repo.contains_key(id) {
                        repo[id]
                    } else {
                        mod_of_entry(id, m.mods[id])
                    }),
            decreases n - i,
        {
            let id = manifest.mods.key_at(i);
            let e = manifest.mods.value_at(i);
            let ghost key = keys[i as int];
            let ghost now = self@.repo;
            proof {
                let t = keys.take(i as int);
                let t1 = keys.take(i + 1);
                assert(t1 =~= t.push(key));
                crate::disk::lemma_filter_push(t, key, pred);
                assert forall|x: Seq<char>| t1.contains(x) <==> t.contains(x) || x == key by {
                    if t.contains(x) {
                        let a = choose|a: int| 0 <= a < t.len() && t[a] == x;
                        assert(t1[a] == x);
                    }
                    if x == key {
                        assert(t1[i as int] == x);
                    }
                }
                // a key occurs once
                if t.contains(key) {
                    let a = choose|a: int| 0 <= a < t.len() && t[a] == key;
                    assert(keys[a] == key);
                    assert(<String as crate::table::Key>::before(keys[a], keys[i as int]));
                    text::lemma_text_before_total(key, key);
                }
                assert(now.contains_key(key) <==> repo.contains_key(key));
            }
            if !self.mod_repository.contains(id) {
                let installed_vpks = if e.enabled {
                    text::copy_texts(&e.current_vpks)
                } else {
                    Vec::new()
                };
                proof {
                    if !e.enabled {
                        assert(texts(installed_vpks@) =~= Seq::<Seq<char>>::empty());
                    }
                }
                let x = Mod {
                    id: id.clone(),
                    name: id.clone(),
                    is_map: false,
                    installed_vpks,
                    file_tree: None,
                    install_order: e.order,
                    original_vpk_names: text::copy_texts(&e.original_vpk_names),
                };
                assert(x@ == mod_of_entry(key, m.mods[key]));
                self.add_mod(x);
                count = count + 1;
            }
            i = i + 1;
        }
        proof {
            assert(keys.take(n as int) =~= keys);
            let want = repo_hydrated(repo, m);
            assert forall|id: Seq<char>| #[trigger] self@.repo.contains_key(id)
                <==> want.contains_key(id) by {
                assert(keys.contains(id) <==> m.mods.contains_key(id));
            }
            assert(self@.repo =~= want);
        }
        count
    }

    /// Learns the mods of a profile from its manifest. Returns how many were not
    /// known before.
    pub fn hydrate_mods_from_manifest(&mut self, disk: &mut Disk, profile_folder: &Option<String>) -> (r:
        Result<usize, Error>)
        ensures
            ordered(*old(disk), *final(disk)),
            ({
                let (d, repo, out) = mods_hydrated(
                    old(disk)@,
                    old(self)@,
                    opt_text(*profile_folder),
                );
                final(disk)@ == d && final(self)@ == with_repo(old(self)@, repo) && count_result(r)
                    == out
            }),
    {
        self.migrate_profile_to_shards(disk, profile_folder)?;
        let base = self.get_addons_path(profile_folder)?;
        let manifest = ProfileVpkManifest::load(disk, base.path())?;
        Ok(self.hydrate_from(&manifest))
    }
}

// ---------------------------------------------------------------------------
// Replacing
// ---------------------------------------------------------------------------

/// The enabled files of a mod: as the manifest records them, else as the caller
/// knows them, else as the manager does.
pub open spec fn files_to_replace(
    m: ManifestView,
    repo: RepoView,
    id: Seq<char>,
    given: Seq<Seq<char>>,
) -> Seq<Seq<char>> {
    if m.mods.contains_key(id) && m.mods[id].current.len() > 0 {
        m.mods[id].current
    } else if given.len() > 0 {
        given
    } else if repo.contains_key(id) {
        repo[id].installed
    } else {
        Seq::empty()
    }
}

/// The file names of a list of paths.
pub open spec fn path_names(paths: Seq<PathView>) -> Seq<Seq<char>> {
    paths.filter(|p: PathView| path_name(p) is Some).map_values(|p: PathView| path_name(p)->0)
}

/// Recording the files that replaced those of a mod.
pub open spec fn replacement_recorded(
    d: DiskView,
    b: BaseView,
    id: Seq<char>,
    installed: Seq<Seq<char>>,
    names: Seq<Seq<char>>,
    target: nat,
) -> (DiskView, Result<(), ErrorView>) {
    let (d1, l) = loaded(d, b.path);
    match l {
        Err(e) => (d1, Err(e)),
        Ok(m) => if installed.len() == 0 {
            match prefixed_found(d1, b.path, id) {
                Err(e) => (d1, Err(e)),
                Ok(found) => saved(d1, b.path, marked_disabled(m, id, found, names)),
            }
        } else {
            saved(d1, b.path, marked_enabled(m, id, installed, names, None, target))
        },
    }
}

/// Replacing the files of a mod.
pub open spec fn mod_replaced(
    d: DiskView,
    m: ManagerView,
    id: Seq<char>,
    sources: Seq<PathView>,
    given: Seq<Seq<char>>,
    folder: Option<Seq<char>>,
) -> (DiskView, Result<(), ErrorView>) {
    match profile_base(m.game_path, folder) {
        Err(e) => (d, Err(e)),
        Ok(b) => {
            let (d1, l) = loaded(d, b.path);
            match l {
                Err(e) => (d1, Err(e)),
                Ok(manifest) => {
                    let target = shard_of_mod(manifest, id);
                    let installed = files_to_replace(manifest, m.repo, id, given);
                    let (d2, r) = replaced_vpks(
                        d1,
                        b.path,
                        shard_dir_of(b, target),
                        id,
                        sources,
                        installed,
                    );
                    match r {
                        Err(e) => (d2, Err(e)),
                        Ok(_) => replacement_recorded(
                            d2,
                            b,
                            id,
                            installed,
                            path_names(sources),
                            target,
                        ),
                    }
                },
            }
        },
    }
}

fn list_path_names(paths: &Vec<TreePath>) -> (r: Vec<String>)
    ensures
        texts(r@) == path_names(path_views(paths@)),
{
    let ghost all = path_views(paths@);
    let ghost pred = |p: PathView| path_name(p) is Some;
    let ghost show = |p: PathView| path_name(p)->0;
    let mut r: Vec<String> = Vec::new();
    let mut i: usize = 0;
    proof {
        reveal(Seq::filter);
        assert(all.take(0).filter(pred) =~= Seq::<PathView>::empty());
        assert(texts(r@) =~= all.take(0).filter(pred).map_values(show));
    }
    while i < paths.len()
        invariant
            i <= paths@.len(),
            all == path_views(paths@),
            pred == (|p: PathView| path_name(p) is Some),
            show == (|p: PathView| path_name(p)->0),
            texts(r@) == all.take(i as int).filter(pred).map_values(show),
        decreases paths@.len() - i,
    {
        let ghost p = all[i as int];
        let ghost so_far = all.take(i as int).filter(pred);
        proof {
            assert(p == paths@[i as int]@);
            assert(all.take(i + 1) =~= all.take(i as int).push(p));
            crate::disk::lemma_filter_push(all.take(i as int), p, pred);
            assert(so_far.push(p).map_values(show) =~= so_far.map_values(show).push(show(p)));
        }
        match paths[i].file_name() {
            Some(s) => {
                proof {
                    text::lemma_texts_push(r@, s);
                }
                r.push(s);
            },
            None => {},
        }
        i = i + 1;
    }
    assert(all.take(all.len() as int) =~= all);
    r
}

impl ModManager {
    fn find_files_to_replace(
        &self,
        manifest: &ProfileVpkManifest,
        mod_id: &str,
        given: Vec<String>,
    ) -> (r: Vec<String>)
        ensures
            texts(r@) == files_to_replace(manifest@, self@.repo, mod_id@, texts(given@)),
    {
        match manifest.entry(mod_id) {
            Some(e) => {
                assert(e@.current.len() == e.current_vpks@.len());
                if e.current_vpks.len() > 0 {
                    return e.current_vpks;
                }
            },
            None => {},
        }
        assert(texts(given@).len() == given@.len());
        if given.len() > 0 {
            return given;
        }
        match self.get_mod(mod_id) {
            Some(m) => m.installed_vpks,
            None => {
                let none: Vec<String> = Vec::new();
                assert(texts(none@) =~= Seq::<Seq<char>>::empty());
                none
            },
        }
    }

    fn record_replacement(
        disk: &mut Disk,
        base: &ProfileBase,
        mod_id: &str,
        installed: Vec<String>,
        names: Vec<String>,
        target: ShardIndex,
    ) -> (r: Result<(), Error>)
        ensures
            ordered(*old(disk), *final(disk)),
            (final(disk)@, unit_result(r)) == replacement_recorded(
                old(disk)@,
                base@,
                mod_id@,
                texts(installed@),
                texts(names@),
                target.number(),
            ),
    {
        let mut manifest = ProfileVpkManifest::load(disk, base.path())?;
        assert(texts(installed@).len() == installed@.len());
        if installed.len() == 0 {
            let found = VpkManager::new().find_prefixed_vpks(disk, base.path(), mod_id)?;
            manifest.mark_disabled(mod_id, found, names);
        } else {
            manifest.mark_enabled(mod_id, installed, names, None, target);
        }
        manifest.save_whole(disk, base.path())
    }

    /// Replaces the files of a mod with others, one for one.
    pub fn replace_mod_vpks(
        &mut self,
        disk: &mut Disk,
        mod_id: &str,
        source_vpk_paths: &Vec<TreePath>,
        installed_vpks_from_frontend: Vec<String>,
        profile_folder: &Option<String>,
    ) -> (r: Result<(), Error>)
        ensures
            ordered(*old(disk), *final(disk)),
            final(self)@ == old(self)@,
            (final(disk)@, unit_result(r)) == mod_replaced(
                old(disk)@,
                old(self)@,
                mod_id@,
                path_views(source_vpk_paths@),
                texts(installed_vpks_from_frontend@),
                opt_text(*profile_folder),
            ),
    {
        let base = self.get_addons_path(profile_folder)?;
        let manifest = ProfileVpkManifest::load(disk, base.path())?;
        let target = manifest.shard_of(mod_id);
        let installed = self.find_files_to_replace(
            &manifest,
            mod_id,
            installed_vpks_from_frontend,
        );
        VpkManager::new().replace_vpks(
            disk,
            base.path(),
            &base.shard_dir(target),
            mod_id,
            source_vpk_paths,
            &installed,
        )?;
        let names = list_path_names(source_vpk_paths);
        ModManager::record_replacement(disk, &base, mod_id, installed, names, target)
    }
}

} // verus!
