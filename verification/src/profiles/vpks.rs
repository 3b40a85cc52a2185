//! The VPK files of a profile: listing, finding and deleting them.
use super::{cannot_list, folder_path, folder_path_of};
use crate::{path, shard_report, text};
use crate::disk::{
    cannot_text, exists_at, is_dir_at, is_file_at, lemma_filter_push, names_in, Disk, DiskView,
};
use crate::error::{Error, ErrorView};
use crate::journal::{group_journal, ordered};
use crate::manager::{gameinfo, profile_base, ModManager};
use crate::manager::gameinfo::{migration_needed, search_paths};
use crate::manifest_store::loaded;
use crate::path::{path_join, path_text, vpk_name, PathView, TreePath};
use crate::shard::{
    bad_base_text, bad_locator_text, base_of, locator_of, shard_dir_of, wire_of, BaseView,
    LocatorView, ProfileBase, ShardIndex, ShardLocator,
};
use crate::shard_report::{
    report_of, ReportInputView, ShardReport, ShardReportInput, ShardReportView,
};
use crate::shard_store::{bool_result, existing_of};
use crate::table::lists_keys;
use crate::text::{contains_text, ends_with, lowercase, opt_text, texts};
use crate::vpk_manifest::{EntryView, ManifestView, ProfileVpkManifest};
use vstd::prelude::*;
use vstd::string::*;

verus! {

broadcast use group_journal;

// ---------------------------------------------------------------------------
// Listing
// ---------------------------------------------------------------------------

/// A VPK file of a profile.
#[derive(Debug)]
pub struct ProfileVpkFile {
    pub shard: ShardIndex,
    pub filename: String,
    pub locator: String,
}

pub struct VpkFileView {
    pub shard: nat,
    pub filename: Seq<char>,
    pub locator: Seq<char>,
}

impl View for ProfileVpkFile {
    type V = VpkFileView;

    open spec fn view(&self) -> VpkFileView {
        VpkFileView {
            shard: self.shard.number(),
            filename: self.filename@,
            locator: self.locator@,
        }
    }
}

pub open spec fn vpk_file_views(v: Seq<ProfileVpkFile>) -> Seq<VpkFileView> {
    v.map_values(|f: ProfileVpkFile| f@)
}

pub open spec fn vpk_file(n: nat, filename: Seq<char>) -> VpkFileView {
    VpkFileView { shard: n, filename, locator: wire_of(LocatorView { shard: n, filename }) }
}

pub open spec fn is_vpk_in(d: DiskView, dir: PathView, name: Seq<char>) -> bool {
    is_file_at(d, dir.push(name)) && ends_with(name, ".vpk"@)
}

/// The VPK files of a shard directory, by name.
pub open spec fn shard_files(d: DiskView, dir: PathView, n: nat) -> Seq<VpkFileView> {
    names_in(d, dir).filter(|f: Seq<char>| is_vpk_in(d, dir, f)).map_values(
        |f: Seq<char>| vpk_file(n, f),
    )
}

/// The VPK files of the first `k` shards that are there.
pub open spec fn files_first(d: DiskView, b: BaseView, k: int) -> Result<
    Seq<VpkFileView>,
    ErrorView,
>
    decreases k,
{
    if k <= 0 {
        Ok(Seq::empty())
    } else {
        match files_first(d, b, k - 1) {
            Err(e) => Err(e),
            Ok(files) => {
                let n = existing_of(d, b)[k - 1];
                let dir = shard_dir_of(b, n);
                if is_dir_at(d, dir) {
                    Ok(files + shard_files(d, dir, n))
                } else {
                    Err(ErrorView::Io(cannot_text("list"@, dir)))
                }
            },
        }
    }
}

/// The VPK files of a profile.
pub open spec fn profile_files(d: DiskView, game: Option<PathView>, folder: Option<Seq<char>>) -> Result<
    Seq<VpkFileView>,
    ErrorView,
> {
    match game {
        None => Err(ErrorView::GamePathNotSet),
        Some(g) => {
            let p = folder_path(g, folder);
            if !exists_at(d, p) {
                Ok(Seq::empty())
            } else {
                match base_of(p, true) {
                    None => Err(ErrorView::InvalidInput(bad_base_text(p))),
                    Some(b) => files_first(d, b, existing_of(d, b).len() as int),
                }
            }
        },
    }
}

pub open spec fn files_result(r: Result<Vec<ProfileVpkFile>, Error>) -> Result<
    Seq<VpkFileView>,
    ErrorView,
> {
    match r {
        Ok(v) => Ok(vpk_file_views(v@)),
        Err(e) => Err(e@),
    }
}

proof fn lemma_files_stop(d: DiskView, b: BaseView, k: int, n: int)
    requires
        0 <= k <= n,
        files_first(d, b, k) is Err,
    ensures
        files_first(d, b, n) == files_first(d, b, k),
    decreases n - k,
{
    if k < n {
        lemma_files_stop(d, b, k, n - 1);
    }
}

fn add_shard_files(disk: &Disk, dir: &TreePath, shard: ShardIndex, out: &mut Vec<ProfileVpkFile>)
    ensures
        vpk_file_views(final(out)@) == vpk_file_views(old(out)@) + shard_files(
            disk@,
            dir@,
            shard.number(),
        ),
{
    let ghost d = disk@;
    let ghost start = vpk_file_views(out@);
    let names = disk.names(dir);
    let ghost all = names_in(d, dir@);
    let ghost pred = |f: Seq<char>| is_vpk_in(d, dir@, f);
    let ghost show = |f: Seq<char>| vpk_file(shard.number(), f);
    let mut i: usize = 0;
    proof {
        reveal(Seq::filter);
        assert(all.take(0).filter(pred) =~= Seq::<Seq<char>>::empty());
        assert(start =~= start + all.take(0).filter(pred).map_values(show));
    }
    while i < names.len()
        invariant
            i <= names@.len(),
            d == disk@,
            texts(names@) == all,
            pred == (|f: Seq<char>| is_vpk_in(d, dir@, f)),
            show == (|f: Seq<char>| vpk_file(shard.number(), f)),
            vpk_file_views(out@) == start + all.take(i as int).filter(pred).map_values(show),
        decreases names@.len() - i,
    {
        let name = names[i].as_str();
        let ghost so_far = all.take(i as int).filter(pred);
        proof {
            assert(all[i as int] == name@);
            assert(all.take(i + 1) =~= all.take(i as int).push(name@));
            lemma_filter_push(all.take(i as int), name@, pred);
            assert(start + so_far.push(name@).map_values(show) =~= (start + so_far.map_values(
                show,
            )).push(show(name@)));
        }
        if disk.is_file(&dir.child(name)) && text::ends(name, ".vpk") {
            let locator = ShardLocator::new(shard, name.to_owned());
            let f = ProfileVpkFile {
                shard,
                filename: name.to_owned(),
                locator: locator.to_wire(),
            };
            assert(vpk_file_views(out@.push(f)) =~= vpk_file_views(out@).push(f@));
            out.push(f);
        }
        i = i + 1;
    }
    assert(all.take(all.len() as int) =~= all);
}

/// Lists the VPK files of a profile, shard by shard.
pub fn get_profile_installed_vpks(
    manager: &ModManager,
    disk: &Disk,
    profile_folder: &Option<String>,
) -> (r: Result<Vec<ProfileVpkFile>, Error>)
    ensures
        files_result(r) == profile_files(disk@, manager@.game_path, opt_text(*profile_folder)),
{
    let addons_path = match &manager.game_path {
        None => {
            return Err(Error::GamePathNotSet);
        },
        Some(g) => folder_path_of(g, profile_folder),
    };
    let mut out: Vec<ProfileVpkFile> = Vec::new();
    assert(vpk_file_views(out@) =~= Seq::<VpkFileView>::empty());
    if !disk.has(&addons_path) {
        return Ok(out);
    }
    let base = ProfileBase::new(&addons_path)?;
    let shards = base.existing_shards(disk);
    let ghost d = disk@;
    let ghost b = base@;
    let mut i: usize = 0;
    while i < shards.len()
        invariant
            i <= shards@.len(),
            d == disk@,
            b == base@,
            shards@.len() == existing_of(d, b).len(),
            forall|j: int|
                0 <= j < shards@.len() ==> (#[trigger] shards@[j]).0.number() == existing_of(d, b)[j]
                    && shards@[j].1@ == shard_dir_of(b, existing_of(d, b)[j]),
            files_first(d, b, i as int) == Ok::<Seq<VpkFileView>, ErrorView>(
                vpk_file_views(out@),
            ),
            base_of(addons_path@, true) == Some(b),
            exists_at(d, addons_path@),
            manager@.game_path is Some,
            addons_path@ == folder_path(manager@.game_path->0, opt_text(*profile_folder)),
        decreases shards@.len() - i,
    {
        let dir = &shards[i].1;
        if !disk.is_dir(dir) {
            proof {
                assert(files_first(d, b, i + 1) is Err);
                lemma_files_stop(d, b, i + 1, shards@.len() as int);
            }
            return Err(cannot_list(dir));
        }
        add_shard_files(disk, dir, shards[i].0, &mut out);
        i = i + 1;
    }
    Ok(out)
}

// ---------------------------------------------------------------------------
// Whether there are any
// ---------------------------------------------------------------------------

/// A directory with something named like a VPK.
pub open spec fn holds_vpk(d: DiskView, dir: PathView) -> bool {
    exists|f: Seq<char>| #[trigger] names_in(d, dir).contains(f) && vpk_name(f)
}

/// Whether one of the first `k` shards that are there holds a VPK.
pub open spec fn vpks_first(d: DiskView, b: BaseView, k: int) -> Result<bool, ErrorView>
    decreases k,
{
    if k <= 0 {
        Ok(false)
    } else {
        match vpks_first(d, b, k - 1) {
            Err(e) => Err(e),
            Ok(true) => Ok(true),
            Ok(false) => {
                let dir = shard_dir_of(b, existing_of(d, b)[k - 1]);
                if is_dir_at(d, dir) {
                    Ok(holds_vpk(d, dir))
                } else {
                    Err(ErrorView::Io(cannot_text("list"@, dir)))
                }
            },
        }
    }
}

/// Whether a profile holds a VPK. Without a game there is none.
pub open spec fn addons_found(d: DiskView, game: Option<PathView>, folder: Option<Seq<char>>) -> Result<
    bool,
    ErrorView,
> {
    match game {
        None => Ok(false),
        Some(g) => {
            let p = folder_path(g, folder);
            if !exists_at(d, p) {
                Ok(false)
            } else {
                match base_of(p, true) {
                    None => Err(ErrorView::InvalidInput(bad_base_text(p))),
                    Some(b) => vpks_first(d, b, existing_of(d, b).len() as int),
                }
            }
        },
    }
}

proof fn lemma_vpks_stop(d: DiskView, b: BaseView, k: int, n: int)
    requires
        0 <= k <= n,
        vpks_first(d, b, k) != Ok::<bool, ErrorView>(false),
    ensures
        vpks_first(d, b, n) == vpks_first(d, b, k),
    decreases n - k,
{
    if k < n {
        lemma_vpks_stop(d, b, k, n - 1);
    }
}

fn has_vpk(disk: &Disk, dir: &TreePath) -> (r: bool)
    ensures
        r == holds_vpk(disk@, dir@),
{
    let names = disk.names(dir);
    let ghost all = names_in(disk@, dir@);
    let mut i: usize = 0;
    while i < names.len()
        invariant
            i <= names@.len(),
            texts(names@) == all,
            all == names_in(disk@, dir@),
            forall|j: int| 0 <= j < i ==> !vpk_name(#[trigger] all[j]),
        decreases names@.len() - i,
    {
        assert(all[i as int] == names@[i as int]@);
        if path::is_vpk_name(names[i].as_str()) {
            assert(all.contains(all[i as int]));
            return true;
        }
        i = i + 1;
    }
    false
}

/// Whether a profile holds a VPK.
pub fn check_addons_exist(manager: &ModManager, disk: &Disk, profile_folder: &Option<String>) -> (r:
    Result<bool, Error>)
    ensures
        bool_result(r) == addons_found(disk@, manager@.game_path, opt_text(*profile_folder)),
{
    let addons_path = match &manager.game_path {
        None => {
            return Ok(false);
        },
        Some(g) => folder_path_of(g, profile_folder),
    };
    if !disk.has(&addons_path) {
        return Ok(false);
    }
    let base = ProfileBase::new(&addons_path)?;
    let shards = base.existing_shards(disk);
    let ghost d = disk@;
    let ghost b = base@;
    let mut i: usize = 0;
    while i < shards.len()
        invariant
            i <= shards@.len(),
            d == disk@,
            b == base@,
            shards@.len() == existing_of(d, b).len(),
            forall|j: int|
                0 <= j < shards@.len() ==> (#[trigger] shards@[j]).1@ == shard_dir_of(
                    b,
                    existing_of(d, b)[j],
                ),
            vpks_first(d, b, i as int) == Ok::<bool, ErrorView>(false),
            base_of(addons_path@, true) == Some(b),
            exists_at(d, addons_path@),
            manager@.game_path is Some,
            addons_path@ == folder_path(manager@.game_path->0, opt_text(*profile_folder)),
        decreases shards@.len() - i,
    {
        let dir = &shards[i].1;
        if !disk.is_dir(dir) {
            proof {
                assert(vpks_first(d, b, i + 1) is Err);
                lemma_vpks_stop(d, b, i + 1, shards@.len() as int);
            }
            return Err(cannot_list(dir));
        }
        if has_vpk(disk, dir) {
            proof {
                assert(vpks_first(d, b, i + 1) == Ok::<bool, ErrorView>(true));
                lemma_vpks_stop(d, b, i + 1, shards@.len() as int);
            }
            return Ok(true);
        }
        i = i + 1;
    }
    Ok(false)
}

// ---------------------------------------------------------------------------
// Finding one file
// ---------------------------------------------------------------------------

/// A file of a profile, as far as its name tells.
#[derive(Debug)]
pub struct LocatedVpk {
    pub dir: TreePath,
    pub path: TreePath,
    pub profile_base: ProfileBase,
    pub shard: ShardIndex,
    pub filename: String,
}

pub struct LocatedView {
    pub dir: PathView,
    pub path: PathView,
    pub base: BaseView,
    pub shard: nat,
    pub filename: Seq<char>,
}

impl View for LocatedVpk {
    type V = LocatedView;

    open spec fn view(&self) -> LocatedView {
        LocatedView {
            dir: self.dir@,
            path: self.path@,
            base: self.profile_base@,
            shard: self.shard.number(),
            filename: self.filename@,
        }
    }
}

pub open spec fn bad_vpk_text(name: Seq<char>) -> Seq<char> {
    "Invalid VPK file name: "@ + name
}

/// Whether a name, in lower case `lower`, is that of a VPK file and no path.
pub open spec fn vpk_filename(name: Seq<char>, lower: Seq<char>) -> bool {
    name.len() > 0 && !contains_text(name, "/"@) && ends_with(lower, ".vpk"@)
}

/// Whether a name, in lower case `lower`, is that of a VPK file and no path.
pub fn is_vpk_filename(name: &str, lower: &str) -> (r: bool)
    ensures
        r == vpk_filename(name@, lower@),
{
    name.unicode_len() > 0 && !text::has_text(name, "/") && text::ends(lower, ".vpk")
}

/// Where the file is that a locator names.
pub open spec fn vpk_located(game: Option<PathView>, folder: Option<Seq<char>>, name: Seq<char>) -> Result<
    LocatedView,
    ErrorView,
> {
    if name.len() == 0 || contains_text(name, "\\"@) || contains_text(name, ".."@) {
        Err(ErrorView::InvalidInput(bad_vpk_text(name)))
    } else {
        match profile_base(game, folder) {
            Err(e) => Err(e),
            Ok(b) => match locator_of(name) {
                None => Err(ErrorView::InvalidInput(bad_locator_text(name))),
                Some(l) => if !vpk_filename(l.filename, lowercase(l.filename)) {
                    Err(ErrorView::InvalidInput(bad_vpk_text(name)))
                } else {
                    let dir = shard_dir_of(b, l.shard);
                    Ok(
                        LocatedView {
                            dir,
                            path: path_join(dir, l.filename),
                            base: b,
                            shard: l.shard,
                            filename: l.filename,
                        },
                    )
                },
            },
        }
    }
}

fn bad_vpk(name: &str) -> (r: Error)
    ensures
        r@ == ErrorView::InvalidInput(bad_vpk_text(name@)),
{
    let mut m: String = "Invalid VPK file name: ".to_owned();
    m.append(name);
    Error::InvalidInput(m)
}

/// Finds where the file is that a locator names.
pub fn locate_profile_vpk(manager: &ModManager, profile_folder: &Option<String>, vpk_name: &str) -> (r:
    Result<LocatedVpk, Error>)
    ensures
        match r {
            Ok(l) => vpk_located(manager@.game_path, opt_text(*profile_folder), vpk_name@) == Ok::<
                LocatedView,
                ErrorView,
            >(l@),
            Err(e) => vpk_located(manager@.game_path, opt_text(*profile_folder), vpk_name@)
                == Err::<LocatedView, ErrorView>(e@),
        },
{
    if vpk_name.unicode_len() == 0 || text::has_text(vpk_name, "\\") || text::has_text(
        vpk_name,
        "..",
    ) {
        return Err(bad_vpk(vpk_name));
    }
    let base = manager.get_addons_path(profile_folder)?;
    let locator = ShardLocator::parse(vpk_name)?;
    let lower = locator.filename.as_str().to_lowercase();
    if !is_vpk_filename(locator.filename.as_str(), lower.as_str()) {
        return Err(bad_vpk(vpk_name));
    }
    let dir = base.shard_dir(locator.shard);
    let path = dir.join(locator.filename.as_str());
    Ok(
        LocatedVpk {
            dir,
            path,
            profile_base: base,
            shard: locator.shard,
            filename: locator.filename,
        },
    )
}

/// Why a file may not be touched, given what its directory and the file itself
/// are once links are followed.
pub open spec fn access_fault(
    path: PathView,
    real_dir: Option<PathView>,
    real_path: Option<PathView>,
) -> Option<ErrorView> {
    if real_dir is None {
        Some(ErrorView::UnauthorizedPath("Unable to resolve addon shard directory"@))
    } else if real_path is None {
        Some(
            ErrorView::UnauthorizedPath("Unable to resolve VPK path: "@ + path_text(path)),
        )
    } else if !real_dir->0.is_prefix_of(real_path->0) {
        Some(ErrorView::UnauthorizedPath("VPK file must be within addons directory"@))
    } else {
        None
    }
}

pub open spec fn opt_path(p: Option<TreePath>) -> Option<PathView> {
    match p {
        Some(p) => Some(p@),
        None => None,
    }
}

/// Checks that a file is in its directory once links are followed, and returns
/// where it really is.
pub fn authorize_profile_vpk(
    located: &LocatedVpk,
    real_dir: Option<TreePath>,
    real_path: Option<TreePath>,
) -> (r: Result<TreePath, Error>)
    ensures
        match r {
            Ok(p) => access_fault(located.path@, opt_path(real_dir), opt_path(real_path)) is None
                && opt_path(real_path) == Some(p@),
            Err(e) => access_fault(located.path@, opt_path(real_dir), opt_path(real_path)) == Some(
                e@,
            ),
        },
{
    let dir = match real_dir {
        Some(d) => d,
        None => {
            return Err(
                Error::UnauthorizedPath("Unable to resolve addon shard directory".to_owned()),
            );
        },
    };
    let file = match real_path {
        Some(p) => p,
        None => {
            let mut m: String = "Unable to resolve VPK path: ".to_owned();
            m.append(located.path.to_text().as_str());
            return Err(Error::UnauthorizedPath(m));
        },
    };
    if !file.starts_with(&dir) {
        return Err(Error::UnauthorizedPath("VPK file must be within addons directory".to_owned()));
    }
    Ok(file)
}

// ---------------------------------------------------------------------------
// Deleting a file that belongs to no mod
// ---------------------------------------------------------------------------

/// The file belongs to the mod of this entry.
pub open spec fn owns_file(e: EntryView, shard: nat, filename: Seq<char>) -> bool {
    if e.enabled {
        e.shard == shard && e.current.contains(filename)
    } else {
        shard == 1 && e.disabled.contains(filename)
    }
}

/// The file belongs to a mod.
pub open spec fn is_managed(m: ManifestView, shard: nat, filename: Seq<char>) -> bool {
    exists|id: Seq<char>|
        #[trigger] m.mods.contains_key(id) && owns_file(m.mods[id], shard, filename)
}

/// Deciding whether a file may be deleted: not if it belongs to a mod.
pub open spec fn deletion_decided(d: DiskView, l: LocatedView) -> (
    DiskView,
    Result<(), ErrorView>,
) {
    let (d1, r) = loaded(d, l.base.path);
    match r {
        Err(e) => (d1, Err(e)),
        Ok(m) => if is_managed(m, l.shard, l.filename) {
            (
                d1,
                Err(
                    ErrorView::ModInvalid(
                        "Cannot delete managed VPK "@ + l.filename
                            + " as an unmatched file; refresh the VPK scan"@,
                    ),
                ),
            )
        } else {
            (d1, Ok(()))
        },
    }
}

fn manifest_owns(manifest: &ProfileVpkManifest, shard: ShardIndex, filename: &str) -> (r: bool)
    ensures
        r == is_managed(manifest@, shard.number(), filename@),
{
    let n: usize = manifest.mods.len();
    let ghost keys = manifest.mods.keys();
    let ghost m = manifest@;
    let mut i: usize = 0;
    while i < n
        invariant
            i <= n == keys.len(),
            m == manifest@,
            keys == manifest.mods.keys(),
            lists_keys::<String, EntryView>(keys, m.mods),
            forall|j: int|
                0 <= j < i ==> !owns_file(m.mods[#[trigger] keys[j]], shard.number(), filename@),
        decreases n - i,
    {
        let e = manifest.mods.value_at(i);
        let owns = if e.enabled {
            e.shard.get() == shard.get() && text::holds_text(&e.current_vpks, filename)
        } else {
            shard.get() == 1 && text::holds_text(&e.disabled_vpks, filename)
        };
        if owns {
            assert(m.mods.contains_key(keys[i as int]));
            return true;
        }
        i = i + 1;
    }
    proof {
        if is_managed(m, shard.number(), filename@) {
            let id = choose|id: Seq<char>|
                #[trigger] m.mods.contains_key(id) && owns_file(
                    m.mods[id],
                    shard.number(),
                    filename@,
                );
            assert(keys.contains(id));
        }
    }
    false
}

/// Decides whether a file of a profile may be deleted as one that belongs to no
/// mod.
pub fn delete_profile_vpk(disk: &mut Disk, located: &LocatedVpk) -> (r: Result<(), Error>)
    ensures
        ordered(*old(disk), *final(disk)),
        (final(disk)@, crate::error::unit_result(r)) == deletion_decided(old(disk)@, located@),
{
    let manifest = ProfileVpkManifest::load(disk, located.profile_base.path())?;
    if manifest_owns(&manifest, located.shard, located.filename.as_str()) {
        let mut m: String = "Cannot delete managed VPK ".to_owned();
        m.append(located.filename.as_str());
        m.append(" as an unmatched file; refresh the VPK scan");
        return Err(Error::ModInvalid(m));
    }
    Ok(())
}

// ---------------------------------------------------------------------------
// Showing a mod
// ---------------------------------------------------------------------------

/// What to show of a mod.
#[derive(Debug)]
pub enum Shown {
    File(TreePath),
    Folder(TreePath),
}

pub enum ShownView {
    File(PathView),
    Folder(PathView),
}

impl View for Shown {
    type V = ShownView;

    open spec fn view(&self) -> ShownView {
        match self {
            Shown::File(p) => ShownView::File(p@),
            Shown::Folder(p) => ShownView::Folder(p@),
        }
    }
}

pub open spec fn shown_result(r: Result<Shown, Error>) -> Result<ShownView, ErrorView> {
    match r {
        Ok(s) => Ok(s@),
        Err(e) => Err(e@),
    }
}

/// What to show of a mod: its first file if that is there, else the directory of
/// its shard.
pub open spec fn mod_shown(
    d: DiskView,
    game: Option<PathView>,
    folder: Option<Seq<char>>,
    id: Seq<char>,
    files: Seq<Seq<char>>,
) -> (DiskView, Result<ShownView, ErrorView>) {
    match profile_base(game, folder) {
        Err(e) => (d, Err(e)),
        Ok(b) => {
            let (d1, l) = loaded(d, b.path);
            match l {
                Err(e) => (d1, Err(e)),
                Ok(m) => if !m.mods.contains_key(id) {
                    (
                        d1,
                        Err(
                            ErrorView::ModInvalid(
                                "Cannot locate mod "@ + id + ": refresh the VPK scan first"@,
                            ),
                        ),
                    )
                } else {
                    let dir = shard_dir_of(b, m.mods[id].shard);
                    if !exists_at(d1, dir) {
                        (d1, Err(ErrorView::GamePathNotSet))
                    } else if files.len() > 0 && exists_at(d1, path_join(dir, files[0])) {
                        (d1, Ok(ShownView::File(path_join(dir, files[0]))))
                    } else {
                        (d1, Ok(ShownView::Folder(dir)))
                    }
                },
            }
        },
    }
}

/// Decides what to show of a mod in the game's folders.
pub fn show_mod_in_game(
    manager: &ModManager,
    disk: &mut Disk,
    mod_id: &str,
    vpk_files: &Vec<String>,
    profile_folder: &Option<String>,
) -> (r: Result<Shown, Error>)
    ensures
        ordered(*old(disk), *final(disk)),
        (final(disk)@, shown_result(r)) == mod_shown(
            old(disk)@,
            manager@.game_path,
            opt_text(*profile_folder),
            mod_id@,
            texts(vpk_files@),
        ),
{
    let base = manager.get_addons_path(profile_folder)?;
    let manifest = ProfileVpkManifest::load(disk, base.path())?;
    let shard = match manifest.entry(mod_id) {
        Some(e) => e.shard,
        None => {
            let mut m: String = "Cannot locate mod ".to_owned();
            m.append(mod_id);
            m.append(": refresh the VPK scan first");
            return Err(Error::ModInvalid(m));
        },
    };
    let dir = base.shard_dir(shard);
    if !disk.has(&dir) {
        return Err(Error::GamePathNotSet);
    }
    assert(texts(vpk_files@).len() == vpk_files@.len());
    if vpk_files.len() > 0 {
        assert(texts(vpk_files@)[0] == vpk_files@[0]@);
        let path = dir.join(vpk_files[0].as_str());
        if disk.has(&path) {
            return Ok(Shown::File(path));
        }
    }
    Ok(Shown::Folder(dir))
}

/// The folder to show for what is kept of a mod, if it is there.
pub fn show_mod_in_store(disk: &Disk, mod_folder: TreePath) -> (r: Result<TreePath, Error>)
    ensures
        match r {
            Ok(p) => exists_at(disk@, mod_folder@) && p == mod_folder,
            Err(e) => !exists_at(disk@, mod_folder@) && e@ == ErrorView::ModFileNotFound,
        },
{
    if disk.has(&mod_folder) {
        Ok(mod_folder)
    } else {
        Err(Error::ModFileNotFound)
    }
}

// ---------------------------------------------------------------------------
// Diagnostics
// ---------------------------------------------------------------------------

/// The report on a profile's shards, given the search paths that gameinfo.gi has.
pub open spec fn diagnosed(
    d: DiskView,
    game: Option<PathView>,
    folder: Option<Seq<char>>,
    gameinfo: Result<Seq<Seq<char>>, ErrorView>,
) -> (DiskView, Result<ShardReportView, ErrorView>) {
    match profile_base(game, folder) {
        Err(e) => (d, Err(e)),
        Ok(b) => {
            let (d1, l) = loaded(d, b.path);
            match l {
                Err(e) => (d1, Err(e)),
                Ok(m) => match gameinfo {
                    Err(e) => (d1, Err(e)),
                    Ok(paths) => (
                        d1,
                        Ok(
                            report_of(
                                d1,
                                ReportInputView {
                                    base: b,
                                    profile_folder: folder,
                                    manifest: m,
                                    expected: search_paths(d1, b, m, folder),
                                    gameinfo: paths,
                                    needs_migration: migration_needed(d1, b),
                                },
                            ),
                        ),
                    ),
                },
            }
        },
    }
}

pub open spec fn report_result(r: Result<ShardReport, Error>) -> Result<
    ShardReportView,
    ErrorView,
> {
    match r {
        Ok(x) => Ok(x@),
        Err(e) => Err(e@),
    }
}

/// Reports on the shards of a profile. `gameinfo_search_paths` is what reading
/// gameinfo.gi gave.
pub fn get_shard_diagnostics(
    manager: &ModManager,
    disk: &mut Disk,
    profile_folder: &Option<String>,
    gameinfo_search_paths: Result<Vec<String>, Error>,
) -> (r: Result<ShardReport, Error>)
    ensures
        ordered(*old(disk), *final(disk)),
        (final(disk)@, report_result(r)) == diagnosed(
            old(disk)@,
            manager@.game_path,
            opt_text(*profile_folder),
            crate::error::texts_result(gameinfo_search_paths),
        ),
{
    let base = manager.get_addons_path(profile_folder)?;
    let manifest = ProfileVpkManifest::load(disk, base.path())?;
    let expected = gameinfo::search_paths_for(disk, &base, &manifest, profile_folder);
    let written = gameinfo_search_paths?;
    let needs_migration = gameinfo::needs_shard_migration(disk, &base);
    Ok(
        shard_report::analyze(
            disk,
            ShardReportInput {
                base: &base,
                profile_folder: text::copy_opt(profile_folder),
                manifest: &manifest,
                expected_search_paths: expected,
                gameinfo_search_paths: written,
                needs_migration,
            },
        ),
    )
}

} // verus!
