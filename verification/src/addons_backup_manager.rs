//! Backups of the addon folders: making, listing, restoring and pruning them.
use crate::{backup_name, order, shard, text, tree_copy};
use crate::backup_name::{backup_time, BACKUP_PREFIX};
use crate::disk::{
    can_rename, cannot_text, dirs_possible, exists_at, folder, is_dir_at, legal,
    lemma_filter_push, names_in, parent_ready, renamed, with_dirs, without_tree, Disk, DiskView,
    OpView,
};
use crate::error::{error_text, Error, ErrorView};
use crate::journal::{group_journal, lemma_transaction, mild, ordered, rested, undoable, went};
use crate::manager::addons_root;
use crate::manifest_store::tree_checked;
use crate::order::{sorted_by, sorted_places, SortKey};
use crate::path::{path_join, path_parent, path_text, PathView, TreePath};
use crate::shard::{numbers, MAX_SHARDS};
use crate::text::{contains_text, dec, lowercase, starts_with, texts};
use crate::tree_copy::{fits, root_path, roots_stats, tree_copied, tree_stats, StatsView};
use crate::vpk_manifest::ProfileVpkManifest;
use vstd::prelude::*;
use vstd::string::*;

pub mod pruning;
pub mod round_trip;
pub mod telling;
pub mod unfinished;

verus! {

broadcast use group_journal;

/// A backup.
#[derive(Debug, Clone)]
pub struct AddonsBackup {
    pub file_name: String,
    pub file_path: String,
    /// In seconds from the start of 1970.
    pub created_at: u64,
    pub file_size: u64,
    pub addons_count: u32,
}

pub struct BackupView {
    pub file_name: Seq<char>,
    pub file_path: Seq<char>,
    pub created_at: u64,
    pub file_size: nat,
    pub addons_count: nat,
}

impl View for AddonsBackup {
    type V = BackupView;

    open spec fn view(&self) -> BackupView {
        BackupView {
            file_name: self.file_name@,
            file_path: self.file_path@,
            created_at: self.created_at,
            file_size: self.file_size as nat,
            addons_count: self.addons_count as nat,
        }
    }
}

pub open spec fn backup_views(v: Seq<AddonsBackup>) -> Seq<BackupView> {
    v.map_values(|b: AddonsBackup| b@)
}

/// What becomes of the present addons when a backup is restored.
#[derive(Debug, Clone, Copy, PartialEq, Eq, Structural)]
pub enum RestoreStrategy {
    /// The backup takes their place.
    Replace,
    /// The backup is laid over them.
    Merge,
}

pub open spec fn strategy_text(s: Seq<char>) -> Seq<char> {
    "Invalid restore strategy: "@ + s + ". Must be 'replace' or 'merge'"@
}

/// The strategy of a name in lower case.
pub open spec fn strategy_named(lower: Seq<char>) -> Option<RestoreStrategy> {
    if lower == "replace"@ {
        Some(RestoreStrategy::Replace)
    } else if lower == "merge"@ {
        Some(RestoreStrategy::Merge)
    } else {
        None
    }
}

impl RestoreStrategy {
    /// The strategy that a text names, in capitals or not.
    pub fn from_str(s: &str) -> (r: Result<RestoreStrategy, Error>)
        ensures
            match r {
                Ok(x) => strategy_named(lowercase(s@)) == Some(x),
                Err(e) => strategy_named(lowercase(s@)) is None && e@ == ErrorView::InvalidInput(
                    strategy_text(s@),
                ),
            },
    {
        let lower = s.to_lowercase();
        RestoreStrategy::from_lowercase(lower.as_str(), s)
    }

    /// The strategy whose name is `lower`; `s` is the text as it was given.
    pub fn from_lowercase(lower: &str, s: &str) -> (r: Result<RestoreStrategy, Error>)
        ensures
            match r {
                Ok(x) => strategy_named(lower@) == Some(x),
                Err(e) => strategy_named(lower@) is None && e@ == ErrorView::InvalidInput(
                    strategy_text(s@),
                ),
            },
    {
        proof {
            reveal_strlit("replace");
            reveal_strlit("merge");
            assert("replace"@.len() == 7);
            assert("merge"@.len() == 5);
        }
        if text::same_text(lower, "replace") {
            Ok(RestoreStrategy::Replace)
        } else if text::same_text(lower, "merge") {
            Ok(RestoreStrategy::Merge)
        } else {
            let mut m: String = "Invalid restore strategy: ".to_owned();
            m.append(s);
            m.append(". Must be 'replace' or 'merge'");
            Err(Error::InvalidInput(m))
        }
    }
}

// ---------------------------------------------------------------------------
// The shard roots together
// ---------------------------------------------------------------------------

/// Copying the roots of shards 1 to `n` that are in `from` to `to`; or the first
/// that failed, and why.
pub open spec fn roots_copied(d: DiskView, from: PathView, to: PathView, n: nat) -> Result<
    DiskView,
    (PathView, ErrorView),
>
    decreases n,
{
    if n == 0 {
        Ok(d)
    } else {
        match roots_copied(d, from, to, (n - 1) as nat) {
            Err(e) => Err(e),
            Ok(d1) => if exists_at(d1, root_path(from, n)) {
                match tree_copied(d1, root_path(from, n), root_path(to, n)) {
                    Err(e) => Err((root_path(from, n), e)),
                    Ok(d2) => Ok(d2),
                }
            } else {
                Ok(d1)
            },
        }
    }
}

/// Moving the roots of shards 1 to `n` from `from` to `to`; or the first that
/// failed.
pub open spec fn roots_moved(d: DiskView, from: PathView, to: PathView, n: nat) -> Result<
    DiskView,
    PathView,
>
    decreases n,
{
    if n == 0 {
        Ok(d)
    } else {
        match roots_moved(d, from, to, (n - 1) as nat) {
            Err(p) => Err(p),
            Ok(d1) => if exists_at(d1, root_path(from, n)) {
                if can_rename(d1, root_path(from, n), root_path(to, n)) {
                    Ok(renamed(d1, root_path(from, n), root_path(to, n)))
                } else {
                    Err(root_path(from, n))
                }
            } else {
                Ok(d1)
            },
        }
    }
}

proof fn lemma_copies_stop(d: DiskView, from: PathView, to: PathView, k: nat, n: nat)
    requires
        k <= n,
        roots_copied(d, from, to, k) is Err,
    ensures
        roots_copied(d, from, to, n) == roots_copied(d, from, to, k),
    decreases n,
{
    if k < n {
        lemma_copies_stop(d, from, to, k, (n - 1) as nat);
    }
}

proof fn lemma_moves_stop(d: DiskView, from: PathView, to: PathView, k: nat, n: nat)
    requires
        k <= n,
        roots_moved(d, from, to, k) is Err,
    ensures
        roots_moved(d, from, to, n) == roots_moved(d, from, to, k),
    decreases n,
{
    if k < n {
        lemma_moves_stop(d, from, to, k, (n - 1) as nat);
    }
}

/// Copies the shard roots. After a failure the tree is some way into it, and is
/// to be dropped.
fn copy_roots(disk: &mut Disk, from: &TreePath, to: &TreePath) -> (r: Result<(), (TreePath, Error)>)
    ensures
        undoable(*old(disk), *final(disk)),
        match r {
            Ok(_) => roots_copied(old(disk)@, from@, to@, MAX_SHARDS as nat) == Ok::<
                DiskView,
                (PathView, ErrorView),
            >(final(disk)@),
            Err(e) => roots_copied(old(disk)@, from@, to@, MAX_SHARDS as nat) == Err::<
                DiskView,
                (PathView, ErrorView),
            >((e.0@, e.1@)),
        },
{
    let ghost d = disk@;
    let all = shard::all_shards();
    let mut i: usize = 0;
    assert(all@.len() == numbers(all@).len());
    while i < all.len()
        invariant
            i <= all@.len() == MAX_SHARDS,
            d == old(disk)@,
            undoable(*old(disk), *disk),
            numbers(all@) == Seq::new(MAX_SHARDS as nat, |i: int| (i + 1) as nat),
            roots_copied(d, from@, to@, i as nat) == Ok::<DiskView, (PathView, ErrorView)>(disk@),
        decreases all@.len() - i,
    {
        assert(numbers(all@)[i as int] == i + 1);
        let name = all[i].root_name();
        let source = from.child(name.as_str());
        let target = to.child(name.as_str());
        if disk.has(&source) {
            match tree_copy::copy_tree(disk, &source, &target) {
                Ok(_) => {},
                Err(e) => {
                    proof {
                        assert(roots_copied(d, from@, to@, (i + 1) as nat) is Err);
                        lemma_copies_stop(d, from@, to@, (i + 1) as nat, MAX_SHARDS as nat);
                    }
                    return Err((source, e));
                },
            }
        }
        i = i + 1;
    }
    Ok(())
}

fn move_roots(disk: &mut Disk, from: &TreePath, to: &TreePath) -> (r: Result<(), TreePath>)
    ensures
        undoable(*old(disk), *final(disk)),
        match r {
            Ok(_) => roots_moved(old(disk)@, from@, to@, MAX_SHARDS as nat) == Ok::<
                DiskView,
                PathView,
            >(final(disk)@),
            Err(p) => roots_moved(old(disk)@, from@, to@, MAX_SHARDS as nat) == Err::<
                DiskView,
                PathView,
            >(p@),
        },
{
    let ghost d = disk@;
    let all = shard::all_shards();
    let mut i: usize = 0;
    assert(all@.len() == numbers(all@).len());
    while i < all.len()
        invariant
            i <= all@.len() == MAX_SHARDS,
            d == old(disk)@,
            undoable(*old(disk), *disk),
            numbers(all@) == Seq::new(MAX_SHARDS as nat, |i: int| (i + 1) as nat),
            roots_moved(d, from@, to@, i as nat) == Ok::<DiskView, PathView>(disk@),
        decreases all@.len() - i,
    {
        assert(numbers(all@)[i as int] == i + 1);
        let name = all[i].root_name();
        let source = from.child(name.as_str());
        let target = to.child(name.as_str());
        if disk.has(&source) {
            match disk.rename(&source, &target) {
                Ok(_) => {},
                Err(_) => {
                    proof {
                        assert(roots_moved(d, from@, to@, (i + 1) as nat) is Err);
                        lemma_moves_stop(d, from@, to@, (i + 1) as nat, MAX_SHARDS as nat);
                    }
                    return Err(source);
                },
            }
        }
        i = i + 1;
    }
    Ok(())
}

// ---------------------------------------------------------------------------
// Making a backup
// ---------------------------------------------------------------------------

/// How many times another name for the staging directory is tried.
pub const LAST_ATTEMPT: u32 = 1000;

/// Where a backup is built before it is published. The name is not that of a
/// backup, so what is cut short is never taken for one.
pub open spec fn build_path(dir: PathView, name: Seq<char>, attempt: nat) -> PathView {
    path_join(dir, "."@ + name + ".staging-"@ + dec(attempt))
}

/// The first place to build a backup in that nothing stands at, from `k` on.
pub open spec fn build_place(d: DiskView, dir: PathView, name: Seq<char>, k: nat) -> Result<
    PathView,
    ErrorView,
>
    decreases LAST_ATTEMPT + 1 - k,
{
    if k > LAST_ATTEMPT {
        Err(
            ErrorView::BackupCreationFailed("Failed to claim a unique backup staging directory"@),
        )
    } else if exists_at(d, build_path(dir, name, k)) {
        build_place(d, dir, name, k + 1)
    } else if parent_ready(d, build_path(dir, name, k)) {
        Ok(build_path(dir, name, k))
    } else {
        Err(
            ErrorView::BackupCreationFailed(
                "Failed to create backup folder: "@ + cannot_text(
                    "create directory"@,
                    build_path(dir, name, k),
                ),
            ),
        )
    }
}

/// Copying the shard roots of `citadel` to `stage`, checking them, and publishing
/// them at `target`.
pub open spec fn snapshot_built(
    d: DiskView,
    citadel: PathView,
    stage: PathView,
    target: PathView,
) -> Result<DiskView, ErrorView> {
    match roots_copied(d, citadel, stage, MAX_SHARDS as nat) {
        Err((root, e)) => Err(
            ErrorView::BackupCreationFailed(
                "Failed to copy addon folder "@ + path_text(root) + ": "@ + error_text(e),
            ),
        ),
        Ok(d1) => {
            let (d2, r) = tree_checked(d1, stage);
            match r {
                Err(e) => Err(
                    ErrorView::BackupCreationFailed(
                        "Created backup is inconsistent: "@ + error_text(e),
                    ),
                ),
                Ok(_) => if can_rename(d2, stage, target) {
                    Ok(renamed(d2, stage, target))
                } else {
                    Err(
                        ErrorView::BackupCreationFailed(
                            "Failed to finalize backup: "@ + cannot_text("rename"@, stage),
                        ),
                    )
                },
            }
        },
    }
}

/// Making a backup of the shard roots beside `addons` in the directory `dir`. A
/// backup that fails leaves nothing behind.
pub open spec fn backup_made(d: DiskView, addons: PathView, dir: PathView, name: Seq<char>) -> (
    DiskView,
    Result<(), ErrorView>,
) {
    let target = path_join(dir, name);
    if !exists_at(d, addons) {
        (d, Err(ErrorView::BackupCreationFailed("Addons folder does not exist"@)))
    } else if !dirs_possible(d, dir) {
        (
            d,
            Err(
                ErrorView::BackupCreationFailed(
                    "Failed to create backup directory: "@ + cannot_text(
                        "create directory"@,
                        dir,
                    ),
                ),
            ),
        )
    } else {
        let d1 = with_dirs(d, dir);
        if exists_at(d1, target) {
            (
                d1,
                Err(
                    ErrorView::BackupCreationFailed("Backup already exists: "@ + path_text(target)),
                ),
            )
        } else {
            match build_place(d1, dir, name, 0) {
                Err(e) => (d1, Err(e)),
                Ok(stage) => {
                    let d2 = d1.insert(stage, folder());
                    match path_parent(addons) {
                        None => (
                            d2,
                            Err(
                                ErrorView::BackupCreationFailed(
                                    "Addons folder has no parent directory"@,
                                ),
                            ),
                        ),
                        Some(citadel) => match snapshot_built(d2, citadel, stage, target) {
                            Err(e) => (without_tree(d2, stage), Err(e)),
                            Ok(d3) => (d3, Ok(())),
                        },
                    }
                },
            }
        }
    }
}

/// A backup just made.
pub open spec fn made_view(
    d: DiskView,
    addons: PathView,
    dir: PathView,
    name: Seq<char>,
    created_at: u64,
) -> BackupView {
    let stats = match path_parent(addons) {
        Some(citadel) => roots_stats(d, citadel),
        None => StatsView { bytes: 0, files: 0, vpks: 0 },
    };
    BackupView {
        file_name: name,
        file_path: path_text(path_join(dir, name)),
        created_at,
        file_size: stats.bytes,
        addons_count: stats.vpks,
    }
}

/// How far a backup is, in percent, when `done` of `total` roots are copied.
pub open spec fn progress_of(done: nat, total: nat) -> nat {
    20 + done * 70 / (if total == 0 {
        1
    } else {
        total
    })
}

/// How far a backup is, in percent, when `done` of `total` roots are copied.
pub fn copy_progress(done: u32, total: u32) -> (r: u32)
    requires
        done <= total <= MAX_SHARDS,
    ensures
        r == progress_of(done as nat, total as nat),
{
    if total == 0 {
        20 + done * 70
    } else {
        assert(done * 70 / (total as int) <= 700) by (nonlinear_arith)
            requires
                done <= 10,
                total >= 1,
        ;
        20 + done * 70 / total
    }
}

fn creation_failed(what: &str, why: &str) -> (r: Error)
    ensures
        r@ == ErrorView::BackupCreationFailed(what@ + why@),
{
    let mut m: String = what.to_owned();
    m.append(why);
    Error::BackupCreationFailed(m)
}

fn restore_failed(what: &str, why: &str) -> (r: Error)
    ensures
        r@ == ErrorView::BackupRestoreFailed(what@ + why@),
{
    let mut m: String = what.to_owned();
    m.append(why);
    Error::BackupRestoreFailed(m)
}

fn find_build_place(disk: &Disk, dir: &TreePath, name: &str) -> (r: Result<TreePath, Error>)
    ensures
        match r {
            Ok(p) => build_place(disk@, dir@, name@, 0) == Ok::<PathView, ErrorView>(p@),
            Err(e) => build_place(disk@, dir@, name@, 0) == Err::<PathView, ErrorView>(e@),
        },
        r matches Ok(p) ==> legal(disk@, OpView::MakeDir(p@)),
{
    let ghost goal = build_place(disk@, dir@, name@, 0);
    let mut k: u32 = 0;
    while k <= LAST_ATTEMPT
        invariant
            k <= LAST_ATTEMPT + 1,
            goal == build_place(disk@, dir@, name@, 0),
            goal == build_place(disk@, dir@, name@, k as nat),
        decreases LAST_ATTEMPT + 1 - k,
    {
        let mut text: String = ".".to_owned();
        text.append(name);
        text.append(".staging-");
        text.append(text::decimal(k as u64).as_str());
        let p = dir.join(text.as_str());
        assert(p@ == build_path(dir@, name@, k as nat));
        if !disk.has(&p) {
            if disk.parent_is_ready(&p) {
                return Ok(p);
            }
            let mut why: String = "Cannot create directory ".to_owned();
            why.append(p.to_text().as_str());
            proof {
                lemma_cannot_create(p@);
            }
            return Err(creation_failed("Failed to create backup folder: ", why.as_str()));
        }
        k = k + 1;
    }
    Err(
        Error::BackupCreationFailed("Failed to claim a unique backup staging directory".to_owned()),
    )
}

proof fn lemma_cannot_create(p: PathView)
    ensures
        "Cannot create directory "@ + path_text(p) == cannot_text("create directory"@, p),
{
    reveal_strlit("Cannot create directory ");
    reveal_strlit("Cannot ");
    reveal_strlit("create directory");
    reveal_strlit(" ");
    assert("Cannot create directory "@ =~= "Cannot "@ + "create directory"@ + " "@);
}

fn build_snapshot(disk: &mut Disk, citadel: &TreePath, stage: &TreePath, target: &TreePath) -> (r:
    Result<(), Error>)
    ensures
        ordered(*old(disk), *final(disk)),
        match r {
            Ok(_) => snapshot_built(old(disk)@, citadel@, stage@, target@) == Ok::<
                DiskView,
                ErrorView,
            >(final(disk)@),
            Err(e) => snapshot_built(old(disk)@, citadel@, stage@, target@) == Err::<
                DiskView,
                ErrorView,
            >(e@),
        },
{
    match copy_roots(disk, citadel, stage) {
        Ok(_) => {},
        Err((root, e)) => {
            let mut m: String = "Failed to copy addon folder ".to_owned();
            m.append(root.to_text().as_str());
            m.append(": ");
            m.append(e.message().as_str());
            return Err(Error::BackupCreationFailed(m));
        },
    }
    match ProfileVpkManifest::validate_tree(disk, stage) {
        Ok(_) => {},
        Err(e) => {
            return Err(
                creation_failed("Created backup is inconsistent: ", e.message().as_str()),
            );
        },
    }
    match disk.rename(stage, target) {
        Ok(_) => Ok(()),
        Err(e) => Err(creation_failed("Failed to finalize backup: ", e.message().as_str())),
    }
}

// ---------------------------------------------------------------------------
// Listing backups
// ---------------------------------------------------------------------------

/// When a directory was made, as far as the file system tells.
pub open spec fn folder_time(times: Seq<(String, u64)>, name: Seq<char>) -> u64
    decreases times.len(),
{
    if times.len() == 0 {
        0
    } else if times[0].0@ == name {
        times[0].1
    } else {
        folder_time(times.drop_first(), name)
    }
}

/// What is known of the backup `name` in `dir`, if its directory was made at
/// `made`.
pub open spec fn backup_info(d: DiskView, dir: PathView, name: Seq<char>, made: u64) -> BackupView {
    let stats = tree_stats(d, dir.push(name));
    BackupView {
        file_name: name,
        file_path: path_text(dir.push(name)),
        created_at: match backup_time(name) {
            Some(t) => t,
            None => made,
        },
        file_size: stats.bytes,
        addons_count: stats.vpks,
    }
}

pub open spec fn is_backup(d: DiskView, dir: PathView, name: Seq<char>) -> bool {
    is_dir_at(d, dir.push(name)) && starts_with(name, BACKUP_PREFIX@)
}

/// What each backup in a directory holds fits the counters.
pub open spec fn backups_fit(d: DiskView, dir: PathView) -> bool {
    forall|name: Seq<char>|
        names_in(d, dir).contains(name) && #[trigger] is_backup(d, dir, name) ==> fits(
            tree_stats(d, dir.push(name)),
        )
}

/// Whether what each backup in a directory holds fits the counters.
pub fn can_count_backups(disk: &Disk, dir: &TreePath) -> (r: bool)
    ensures
        r == backups_fit(disk@, dir@),
{
    let names = disk.names(dir);
    let ghost all = names_in(disk@, dir@);
    let mut i: usize = 0;
    while i < names.len()
        invariant
            i <= names@.len(),
            texts(names@) == all,
            all == names_in(disk@, dir@),
            forall|j: int|
                0 <= j < i && is_backup(disk@, dir@, #[trigger] all[j]) ==> fits(
                    tree_stats(disk@, dir@.push(all[j])),
                ),
        decreases names@.len() - i,
    {
        let name = names[i].as_str();
        assert(all[i as int] == name@);
        let path = dir.child(name);
        if disk.is_dir(&path) && text::begins(name, BACKUP_PREFIX) && !tree_copy::can_count_below(
            disk,
            &path,
        ) {
            assert(all.contains(name@));
            assert(is_backup(disk@, dir@, name@));
            return false;
        }
        i = i + 1;
    }
    true
}

/// The backups in a directory, by name.
pub open spec fn backups_found(d: DiskView, dir: PathView, times: Seq<(String, u64)>) -> Seq<
    BackupView,
> {
    names_in(d, dir).filter(|n: Seq<char>| is_backup(d, dir, n)).map_values(
        |n: Seq<char>| backup_info(d, dir, n, folder_time(times, n)),
    )
}

pub open spec fn newest_first(b: BackupView) -> SortKey {
    ((u64::MAX - b.created_at) as u64, 0, 0)
}

/// The backups in a directory, the newest first.
pub open spec fn backups_listed(d: DiskView, dir: PathView, times: Seq<(String, u64)>) -> Seq<
    BackupView,
> {
    let found = backups_found(d, dir, times);
    sorted_by(found, found.map_values(|b: BackupView| newest_first(b)))
}

fn time_of_folder(times: &Vec<(String, u64)>, name: &str) -> (r: u64)
    ensures
        r == folder_time(times@, name@),
{
    let ghost all = times@;
    let mut i: usize = 0;
    assert(all.skip(0) =~= all);
    while i < times.len()
        invariant
            i <= times@.len(),
            all == times@,
            folder_time(all, name@) == folder_time(all.skip(i as int), name@),
        decreases times@.len() - i,
    {
        assert(all.skip(i as int)[0] == times@[i as int]);
        assert(all.skip(i as int).drop_first() =~= all.skip(i + 1));
        if text::same_text(times[i].0.as_str(), name) {
            return times[i].1;
        }
        i = i + 1;
    }
    0
}

fn describe(disk: &Disk, dir: &TreePath, name: &str, made: u64) -> (r: AddonsBackup)
    requires
        fits(tree_stats(disk@, dir@.push(name@))),
    ensures
        r@ == backup_info(disk@, dir@, name@, made),
{
    let path = dir.child(name);
    let stats = tree_copy::stats_below(disk, &path);
    AddonsBackup {
        file_name: name.to_owned(),
        file_path: path.to_text(),
        created_at: match backup_name::parse_backup_filename(name) {
            Some(t) => t,
            None => made,
        },
        file_size: stats.bytes,
        addons_count: stats.vpks,
    }
}

fn find_backups(disk: &Disk, dir: &TreePath, times: &Vec<(String, u64)>) -> (r: Vec<AddonsBackup>)
    requires
        backups_fit(disk@, dir@),
    ensures
        backup_views(r@) == backups_found(disk@, dir@, times@),
        r@.len() <= names_in(disk@, dir@).len(),
{
    let ghost d = disk@;
    let names = disk.names(dir);
    let ghost all = names_in(d, dir@);
    let ghost pred = |n: Seq<char>| is_backup(d, dir@, n);
    let ghost show = |n: Seq<char>| backup_info(d, dir@, n, folder_time(times@, n));
    let mut r: Vec<AddonsBackup> = Vec::new();
    let mut i: usize = 0;
    proof {
        reveal(Seq::filter);
        assert(all.take(0).filter(pred) =~= Seq::<Seq<char>>::empty());
        assert(backup_views(r@) =~= all.take(0).filter(pred).map_values(show));
    }
    while i < names.len()
        invariant
            i <= names@.len(),
            d == disk@,
            backups_fit(d, dir@),
            all == names_in(d, dir@),
            texts(names@) == all,
            pred == (|n: Seq<char>| is_backup(d, dir@, n)),
            show == (|n: Seq<char>| backup_info(d, dir@, n, folder_time(times@, n))),
            backup_views(r@) == all.take(i as int).filter(pred).map_values(show),
        decreases names@.len() - i,
    {
        let name = names[i].as_str();
        let ghost so_far = all.take(i as int).filter(pred);
        proof {
            assert(all[i as int] == name@);
            assert(all.contains(name@));
            assert(all.take(i + 1) =~= all.take(i as int).push(name@));
            lemma_filter_push(all.take(i as int), name@, pred);
            assert(so_far.push(name@).map_values(show) =~= so_far.map_values(show).push(
                show(name@),
            ));
        }
        if disk.is_dir(&dir.child(name)) && text::begins(name, BACKUP_PREFIX) {
            let b = describe(disk, dir, name, time_of_folder(times, name));
            assert(backup_views(r@.push(b)) =~= backup_views(r@).push(b@));
            r.push(b);
        }
        i = i + 1;
    }
    proof {
        assert(all.take(all.len() as int) =~= all);
        all.lemma_filter_len(pred);
        assert(backup_views(r@).len() == r@.len());
    }
    r
}

fn sort_backups(found: Vec<AddonsBackup>) -> (r: Vec<AddonsBackup>)
    ensures
        backup_views(r@) == sorted_by(
            backup_views(found@),
            backup_views(found@).map_values(|b: BackupView| newest_first(b)),
        ),
        r@.len() == found@.len(),
{
    let ghost fv = backup_views(found@);
    let mut keys: Vec<SortKey> = Vec::new();
    let mut i: usize = 0;
    while i < found.len()
        invariant
            i <= found@.len(),
            fv == backup_views(found@),
            keys@.len() == i,
            forall|j: int| 0 <= j < i ==> #[trigger] keys@[j] == newest_first(fv[j]),
        decreases found@.len() - i,
    {
        assert(fv[i as int] == found@[i as int]@);
        keys.push((u64::MAX - found[i].created_at, 0, 0));
        i = i + 1;
    }
    assert(keys@ =~= fv.map_values(|b: BackupView| newest_first(b)));
    let places = order::stable_order(&keys);
    let mut r: Vec<AddonsBackup> = Vec::new();
    let mut k: usize = 0;
    while k < places.len()
        invariant
            k <= places@.len(),
            places@.len() == found@.len(),
            fv == backup_views(found@),
            forall|j: int| 0 <= j < places@.len() ==> 0 <= #[trigger] places@[j] < found@.len(),
            r@.len() == k,
            forall|j: int| 0 <= j < k ==> (#[trigger] r@[j])@ == fv[places@[j] as int],
        decreases places@.len() - k,
    {
        let at: usize = places[k];
        assert(fv[at as int] == found@[at as int]@);
        let b = &found[at];
        r.push(
            AddonsBackup {
                file_name: b.file_name.clone(),
                file_path: b.file_path.clone(),
                created_at: b.created_at,
                file_size: b.file_size,
                addons_count: b.addons_count,
            },
        );
        k = k + 1;
    }
    proof {
        let want = sorted_by(fv, keys@);
        assert(order::place_views(places@) == sorted_places(keys@));
        assert forall|j: int| 0 <= j < want.len() implies backup_views(r@)[j] == want[j] by {
            assert(order::place_views(places@)[j] == places@[j]);
            assert(r@[j]@ == fv[places@[j] as int]);
        }
        assert(backup_views(r@) =~= want);
    }
    r
}

// ---------------------------------------------------------------------------
// Restoring a backup
// ---------------------------------------------------------------------------

/// The directory that holds the shard roots of a game.
pub open spec fn citadel_of(game: PathView) -> PathView {
    game.push("game"@).push("citadel"@)
}

pub open spec fn backup_dir_of(game: PathView) -> PathView {
    citadel_of(game).push("addons-backups"@)
}

/// A name that stands for a backup and nothing else.
pub open spec fn safe_backup_name(name: Seq<char>) -> bool {
    starts_with(name, BACKUP_PREFIX@) && !contains_text(name, ".."@) && !contains_text(name, "/"@)
        && !contains_text(name, "\\"@)
}

/// Where a backup is, by its name.
pub open spec fn backup_path(game: Option<PathView>, name: Seq<char>) -> Result<
    PathView,
    ErrorView,
> {
    if !safe_backup_name(name) {
        Err(ErrorView::InvalidInput("Invalid addons backup name"@))
    } else {
        match game {
            None => Err(ErrorView::GamePathNotSet),
            Some(g) => Ok(backup_dir_of(g).push(name)),
        }
    }
}

/// Laying the addons that were set aside under the restored ones, where they are
/// to stay.
pub open spec fn present_kept(
    d: DiskView,
    citadel: PathView,
    stage: PathView,
    strategy: RestoreStrategy,
) -> Result<DiskView, ErrorView> {
    if strategy == RestoreStrategy::Replace {
        Ok(d)
    } else {
        match roots_copied(d, stage, citadel, MAX_SHARDS as nat) {
            Err((root, e)) => Err(
                ErrorView::BackupRestoreFailed(
                    "Failed to prepare existing addon folder for merge: "@ + error_text(e),
                ),
            ),
            Ok(d1) => Ok(d1),
        }
    }
}

/// Copying a backup into place: root by root, or as a whole if it is from before
/// the addons had shards.
pub open spec fn backup_laid(d: DiskView, citadel: PathView, backup: PathView) -> Result<
    DiskView,
    ErrorView,
> {
    if is_dir_at(d, backup.push("addons"@)) {
        match roots_copied(d, backup, citadel, MAX_SHARDS as nat) {
            Err((root, e)) => Err(
                ErrorView::BackupRestoreFailed(
                    "Failed to restore addon folder: "@ + error_text(e),
                ),
            ),
            Ok(d1) => Ok(d1),
        }
    } else {
        match tree_copied(d, backup, citadel.push("addons"@)) {
            Err(e) => Err(
                ErrorView::BackupRestoreFailed(
                    "Failed to restore legacy addon backup: "@ + error_text(e),
                ),
            ),
            Ok(d1) => Ok(d1),
        }
    }
}

/// Checking what was restored.
pub open spec fn snapshot_checked(d: DiskView, root: PathView) -> Result<DiskView, ErrorView> {
    let (d1, r) = tree_checked(d, root);
    match r {
        Err(e) => Err(ErrorView::BackupRestoreFailed(error_text(e))),
        Ok(_) => Ok(d1),
    }
}

/// The tree with a backup laid into the place of the addons that were set aside,
/// before it is checked.
pub open spec fn backup_set(
    d: DiskView,
    citadel: PathView,
    stage: PathView,
    backup: PathView,
    strategy: RestoreStrategy,
) -> Result<DiskView, ErrorView> {
    match present_kept(d, citadel, stage, strategy) {
        Err(e) => Err(e),
        Ok(d1) => backup_laid(d1, citadel, backup),
    }
}

/// What restoring a backup makes of the tree as a whole or not at all.
pub open spec fn restored_tree(
    d: DiskView,
    game: PathView,
    name: Seq<char>,
    strategy: RestoreStrategy,
) -> DiskView {
    let citadel = citadel_of(game);
    let stage = citadel.push(".dmm-restore-staging"@);
    let aside = roots_moved(with_dirs(d, stage), citadel, stage, MAX_SHARDS as nat)->Ok_0;
    backup_set(aside, citadel, stage, backup_dir_of(game).push(name), strategy)->Ok_0
}

/// Restoring once the present addons are set aside.
pub open spec fn backup_in_place(
    d: DiskView,
    citadel: PathView,
    stage: PathView,
    backup: PathView,
    strategy: RestoreStrategy,
) -> Result<DiskView, ErrorView> {
    match present_kept(d, citadel, stage, strategy) {
        Err(e) => Err(e),
        Ok(d1) => match backup_laid(d1, citadel, backup) {
            Err(e) => Err(e),
            Ok(d2) => snapshot_checked(d2, citadel),
        },
    }
}

/// Restoring a backup. If it fails, the addons are as they were.
pub open spec fn backup_restored(
    d: DiskView,
    game: Option<PathView>,
    name: Seq<char>,
    strategy: RestoreStrategy,
) -> Result<DiskView, ErrorView> {
    match backup_path(game, name) {
        Err(e) => Err(e),
        Ok(backup) => {
            let citadel = citadel_of(game->0);
            let stage = citadel.push(".dmm-restore-staging"@);
            if !exists_at(d, backup) {
                Err(ErrorView::BackupNotFound)
            } else if exists_at(d, stage) {
                Err(
                    ErrorView::BackupRestoreFailed(
                        "A previous restore staging directory still exists at "@ + path_text(stage),
                    ),
                )
            } else if !dirs_possible(d, stage) {
                Err(
                    ErrorView::BackupRestoreFailed(
                        "Failed to create restore staging directory: "@ + cannot_text(
                            "create directory"@,
                            stage,
                        ),
                    ),
                )
            } else {
                match roots_moved(with_dirs(d, stage), citadel, stage, MAX_SHARDS as nat) {
                    Err(root) => Err(
                        ErrorView::BackupRestoreFailed(
                            "Failed to stage addon folder "@ + path_text(root) + ": "@
                                + cannot_text("rename"@, root),
                        ),
                    ),
                    Ok(d1) => match backup_in_place(d1, citadel, stage, backup, strategy) {
                        Err(e) => Err(e),
                        Ok(d2) => Ok(
                            if is_dir_at(d2, stage) {
                                without_tree(d2, stage)
                            } else {
                                d2
                            },
                        ),
                    },
                }
            }
        },
    }
}

fn put_in_place(
    disk: &mut Disk,
    citadel: &TreePath,
    stage: &TreePath,
    backup: &TreePath,
    strategy: RestoreStrategy,
) -> (r: Result<(), Error>)
    ensures
        undoable(*old(disk), *final(disk)),
        match r {
            Ok(_) => backup_set(old(disk)@, citadel@, stage@, backup@, strategy) == Ok::<
                DiskView,
                ErrorView,
            >(final(disk)@),
            Err(e) => backup_set(old(disk)@, citadel@, stage@, backup@, strategy) == Err::<
                DiskView,
                ErrorView,
            >(e@),
        },
{
    if strategy == RestoreStrategy::Merge {
        match copy_roots(disk, stage, citadel) {
            Ok(_) => {},
            Err((_, e)) => {
                return Err(
                    restore_failed(
                        "Failed to prepare existing addon folder for merge: ",
                        e.message().as_str(),
                    ),
                );
            },
        }
    }
    if disk.is_dir(&backup.child("addons")) {
        match copy_roots(disk, backup, citadel) {
            Ok(_) => {},
            Err((_, e)) => {
                return Err(
                    restore_failed("Failed to restore addon folder: ", e.message().as_str()),
                );
            },
        }
    } else {
        match tree_copy::copy_tree(disk, backup, &citadel.child("addons")) {
            Ok(_) => {},
            Err(e) => {
                return Err(
                    restore_failed("Failed to restore legacy addon backup: ", e.message().as_str()),
                );
            },
        }
    }
    Ok(())
}

// ---------------------------------------------------------------------------
// Pruning
// ---------------------------------------------------------------------------

/// Deleting a backup.
pub open spec fn backup_deleted(d: DiskView, game: Option<PathView>, name: Seq<char>) -> Result<
    DiskView,
    ErrorView,
> {
    match backup_path(game, name) {
        Err(e) => Err(e),
        Ok(p) => if !exists_at(d, p) {
            Err(ErrorView::BackupNotFound)
        } else if is_dir_at(d, p) {
            Ok(without_tree(d, p))
        } else {
            Err(
                ErrorView::BackupRestoreFailed(
                    "Failed to delete backup directory: "@ + cannot_text("remove"@, p),
                ),
            )
        },
    }
}

/// Deleting the backups from position `from` to `k` of a list, and how many were
/// deleted. One that cannot be deleted is passed over.
pub open spec fn backups_pruned(
    d: DiskView,
    game: Option<PathView>,
    list: Seq<BackupView>,
    from: int,
    k: int,
) -> (DiskView, nat)
    decreases k - from,
{
    if k <= from {
        (d, 0)
    } else {
        let (d1, n) = backups_pruned(d, game, list, from, k - 1);
        match backup_deleted(d1, game, list[k - 1].file_name) {
            Ok(d2) => (d2, n + 1),
            Err(_) => (d1, n),
        }
    }
}

// ---------------------------------------------------------------------------
// The manager
// ---------------------------------------------------------------------------

/// Manages the backups of a game's addons.
pub struct AddonsBackupManager {
    pub game_path: Option<TreePath>,
}

impl View for AddonsBackupManager {
    type V = Option<PathView>;

    open spec fn view(&self) -> Option<PathView> {
        match self.game_path {
            Some(p) => Some(p@),
            None => None,
        }
    }
}

pub open spec fn backups_result(r: Result<Vec<AddonsBackup>, Error>) -> Result<
    Seq<BackupView>,
    ErrorView,
> {
    match r {
        Ok(v) => Ok(backup_views(v@)),
        Err(e) => Err(e@),
    }
}

pub open spec fn path_result(r: Result<TreePath, Error>) -> Result<PathView, ErrorView> {
    match r {
        Ok(p) => Ok(p@),
        Err(e) => Err(e@),
    }
}

impl AddonsBackupManager {
    pub fn new() -> (r: AddonsBackupManager)
        ensures
            r@ is None,
    {
        AddonsBackupManager { game_path: None }
    }

    pub fn set_game_path(&mut self, path: TreePath)
        ensures
            final(self)@ == Some(path@),
    {
        self.game_path = Some(path);
    }

    fn citadel(&self) -> (r: Result<TreePath, Error>)
        ensures
            path_result(r) == (match self@ {
                Some(g) => Ok(citadel_of(g)),
                None => Err(ErrorView::GamePathNotSet),
            }),
    {
        match &self.game_path {
            Some(g) => Ok(g.child("game").child("citadel")),
            None => Err(Error::GamePathNotSet),
        }
    }

    /// The addons of the game.
    pub fn get_addons_path(&self) -> (r: Result<TreePath, Error>)
        ensures
            path_result(r) == (match self@ {
                Some(g) => Ok(addons_root(g)),
                None => Err(ErrorView::GamePathNotSet),
            }),
    {
        Ok(self.citadel()?.child("addons"))
    }

    /// Where the backups of the game are.
    pub fn get_backup_directory(&self) -> (r: Result<TreePath, Error>)
        ensures
            path_result(r) == (match self@ {
                Some(g) => Ok(backup_dir_of(g)),
                None => Err(ErrorView::GamePathNotSet),
            }),
    {
        Ok(self.citadel()?.child("addons-backups"))
    }

    /// The name of a backup made now.
    pub fn generate_backup_filename(&self) -> (r: String)
        ensures
            backup_name::is_backup_filename(r@),
    {
        backup_name::current_backup_filename()
    }

    /// The time that a backup's name tells.
    pub fn parse_backup_filename(&self, filename: &str) -> (r: Option<u64>)
        ensures
            r == backup_time(filename@),
    {
        backup_name::parse_backup_filename(filename)
    }

    /// Checks that every file that the manifests below `root` name is there. After
    /// a failure the tree is to be dropped.
    pub fn validate_snapshot(disk: &mut Disk, root: &TreePath) -> (r: Result<(), Error>)
        ensures
            ordered(*old(disk), *final(disk)),
            match r {
                Ok(_) => snapshot_checked(old(disk)@, root@) == Ok::<DiskView, ErrorView>(
                    final(disk)@,
                ),
                Err(e) => snapshot_checked(old(disk)@, root@) == Err::<DiskView, ErrorView>(e@),
            },
    {
        match ProfileVpkManifest::validate_tree(disk, root) {
            Ok(_) => Ok(()),
            Err(e) => Err(Error::BackupRestoreFailed(e.message())),
        }
    }

    /// Makes a backup of the addons at `addons_path`, with all their shards, in
    /// `backup_dir`. It is built under a name that is no backup's, and gets its own
    /// name once it is whole and consistent.
    pub fn create_backup_async(
        disk: &mut Disk,
        addons_path: &TreePath,
        backup_dir: &TreePath,
        filename: String,
        created_at: u64,
    ) -> (r: Result<AddonsBackup, Error>)
        requires
            exists_at(old(disk)@, addons_path@) && path_parent(addons_path@) is Some ==> fits(
                roots_stats(old(disk)@, path_parent(addons_path@)->0),
            ),
        ensures
            ordered(*old(disk), *final(disk)),
            r is Ok ==> rested(*old(disk), *final(disk)),
            ({
                let (d, out) = backup_made(old(disk)@, addons_path@, backup_dir@, filename@);
                final(disk)@ == d && match r {
                    Ok(b) => out is Ok && b@ == made_view(
                        old(disk)@,
                        addons_path@,
                        backup_dir@,
                        filename@,
                        created_at,
                    ),
                    Err(e) => out == Err::<(), ErrorView>(e@),
                }
            }),
    {
        if !disk.has(addons_path) {
            return Err(Error::BackupCreationFailed("Addons folder does not exist".to_owned()));
        }
        let stats = match addons_path.parent() {
            Some(citadel) => tree_copy::stats_of_roots(disk, &citadel),
            None => tree_copy::TreeStats { bytes: 0, files: 0, vpks: 0 },
        };
        match disk.create_dir_all(backup_dir) {
            Ok(_) => {},
            Err(e) => {
                return Err(
                    creation_failed("Failed to create backup directory: ", e.message().as_str()),
                );
            },
        }
        let target = backup_dir.join(filename.as_str());
        if disk.has(&target) {
            return Err(creation_failed("Backup already exists: ", target.to_text().as_str()));
        }
        let stage = find_build_place(disk, backup_dir, filename.as_str())?;
        disk.make_dir(&stage);
        let citadel = match addons_path.parent() {
            Some(c) => c,
            None => {
                return Err(
                    Error::BackupCreationFailed("Addons folder has no parent directory".to_owned()),
                );
            },
        };
        let mut work = disk.duplicate();
        match build_snapshot(&mut work, &citadel, &stage, &target) {
            Ok(_) => {
                *disk = work;
                disk.commit();
            },
            Err(e) => {
                disk.clear_away(&stage);
                disk.settle();
                return Err(e);
            },
        }
        Ok(
            AddonsBackup {
                file_name: filename,
                file_path: target.to_text(),
                created_at,
                file_size: stats.bytes,
                addons_count: stats.vpks,
            },
        )
    }

    /// The backups of the game, the newest first. `times` tells when the
    /// directories were made, for those whose name does not.
    pub fn list_backups(&self, disk: &Disk, times: &Vec<(String, u64)>) -> (r: Result<
        Vec<AddonsBackup>,
        Error,
    >)
        requires
            self@ matches Some(g) ==> backups_fit(disk@, backup_dir_of(g)),
        ensures
            backups_result(r) == (match self@ {
                None => Err(ErrorView::GamePathNotSet),
                Some(g) => Ok(
                    if exists_at(disk@, backup_dir_of(g)) {
                        backups_listed(disk@, backup_dir_of(g), times@)
                    } else {
                        Seq::empty()
                    },
                ),
            }),
            r matches Ok(v) ==> v@.len() <= names_in(disk@, backup_dir_of(self@->0)).len(),
    {
        let dir = self.get_backup_directory()?;
        if !disk.has(&dir) {
            let none: Vec<AddonsBackup> = Vec::new();
            assert(backup_views(none@) =~= Seq::<BackupView>::empty());
            return Ok(none);
        }
        let found = find_backups(disk, &dir, times);
        Ok(sort_backups(found))
    }

    fn resolve_backup_path(&self, file_name: &str) -> (r: Result<TreePath, Error>)
        ensures
            path_result(r) == backup_path(self@, file_name@),
    {
        if !text::begins(file_name, BACKUP_PREFIX) || text::has_text(file_name, "..")
            || text::has_text(file_name, "/") || text::has_text(file_name, "\\") {
            return Err(Error::InvalidInput("Invalid addons backup name".to_owned()));
        }
        Ok(self.get_backup_directory()?.child(file_name))
    }

    /// Restores a backup. The present addons are set aside first, and go back if
    /// the backup turns out to be inconsistent.
    pub fn restore_backup(&self, disk: &mut Disk, file_name: &str, strategy: RestoreStrategy) -> (r:
        Result<(), Error>)
        ensures
            ordered(*old(disk), *final(disk)),
            match r {
                Ok(_) => backup_restored(old(disk)@, self@, file_name@, strategy) == Ok::<
                    DiskView,
                    ErrorView,
                >(final(disk)@) && went(
                    *old(disk),
                    old(disk)@,
                    restored_tree(old(disk)@, self@->0, file_name@, strategy),
                    *final(disk),
                ),
                Err(e) => backup_restored(old(disk)@, self@, file_name@, strategy) == Err::<
                    DiskView,
                    ErrorView,
                >(e@) && final(disk)@ == old(disk)@,
            },
    {
        let backup = self.resolve_backup_path(file_name)?;
        if !disk.has(&backup) {
            return Err(Error::BackupNotFound);
        }
        let citadel = self.citadel()?;
        let stage = citadel.child(".dmm-restore-staging");
        if disk.has(&stage) {
            return Err(
                restore_failed(
                    "A previous restore staging directory still exists at ",
                    stage.to_text().as_str(),
                ),
            );
        }
        let mut work = disk.duplicate();
        work.settle();
        let ghost before = work;
        match work.create_dir_all(&stage) {
            Ok(_) => {},
            Err(e) => {
                return Err(
                    restore_failed(
                        "Failed to create restore staging directory: ",
                        e.message().as_str(),
                    ),
                );
            },
        }
        match move_roots(&mut work, &citadel, &stage) {
            Ok(_) => {},
            Err(root) => {
                let text = root.to_text();
                let mut m: String = "Failed to stage addon folder ".to_owned();
                m.append(text.as_str());
                m.append(": ");
                m.append("Cannot rename ");
                m.append(text.as_str());
                proof {
                    reveal_strlit("Cannot rename ");
                    reveal_strlit("Cannot ");
                    reveal_strlit("rename");
                    reveal_strlit(" ");
                    assert("Cannot rename "@ =~= "Cannot "@ + "rename"@ + " "@);
                    assert(m@ =~= "Failed to stage addon folder "@ + text@ + ": "@ + cannot_text(
                        "rename"@,
                        root@,
                    ));
                }
                return Err(Error::BackupRestoreFailed(m));
            },
        }
        put_in_place(&mut work, &citadel, &stage, &backup, strategy)?;
        let mut probe = work.duplicate();
        AddonsBackupManager::validate_snapshot(&mut probe, &citadel)?;
        let ghost done = work;
        work.commit();
        let ghost committed = work;
        work.settle();
        proof {
            lemma_transaction(before, done, committed, committed, work);
        }
        AddonsBackupManager::validate_snapshot(&mut work, &citadel)?;
        work.clear_away(&stage);
        work.settle();
        *disk = work;
        Ok(())
    }

    /// Deletes a backup.
    pub fn delete_backup(&self, disk: &mut Disk, file_name: &str) -> (r: Result<(), Error>)
        ensures
            ordered(*old(disk), *final(disk)),
            match r {
                Ok(_) => backup_deleted(old(disk)@, self@, file_name@) == Ok::<DiskView, ErrorView>(
                    final(disk)@,
                ),
                Err(e) => backup_deleted(old(disk)@, self@, file_name@) == Err::<
                    DiskView,
                    ErrorView,
                >(e@) && final(disk)@ == old(disk)@,
            },
    {
        let path = self.resolve_backup_path(file_name)?;
        if !disk.has(&path) {
            return Err(Error::BackupNotFound);
        }
        match disk.remove_dir_all(&path) {
            Ok(_) => Ok(()),
            Err(e) => Err(
                restore_failed("Failed to delete backup directory: ", e.message().as_str()),
            ),
        }
    }

    /// Deletes a backup if it can be deleted.
    fn drop_backup(&self, disk: &mut Disk, file_name: &str) -> (r: bool)
        ensures
            mild(*old(disk), *final(disk)),
            match backup_deleted(old(disk)@, self@, file_name@) {
                Ok(d) => r && final(disk)@ == d,
                Err(_) => !r && final(disk)@ == old(disk)@,
            },
    {
        match self.resolve_backup_path(file_name) {
            Ok(path) => {
                if !disk.is_dir(&path) {
                    return false;
                }
                disk.clear_away(&path);
                true
            },
            Err(_) => false,
        }
    }

    /// Deletes all but the `max_count` newest backups, and returns how many. If
    /// `max_count` is 0, nothing is deleted. A backup that the file system does not
    /// let go stops none of the others.
    pub fn prune_old_backups(&self, disk: &mut Disk, max_count: u32, times: &Vec<(String, u64)>) -> (r:
        Result<u32, Error>)
        requires
            self@ matches Some(g) ==> backups_fit(old(disk)@, backup_dir_of(g)) && names_in(
                old(disk)@,
                backup_dir_of(g),
            ).len() <= u32::MAX,
        ensures
            mild(*old(disk), *final(disk)),
            match self@ {
                None => r == Err::<u32, Error>(Error::GamePathNotSet) && final(disk)@ == old(disk)@,
                Some(g) => {
                    let list = if exists_at(old(disk)@, backup_dir_of(g)) {
                        backups_listed(old(disk)@, backup_dir_of(g), times@)
                    } else {
                        Seq::empty()
                    };
                    let (d, n) = if max_count == 0 {
                        (old(disk)@, 0)
                    } else {
                        backups_pruned(
                            old(disk)@,
                            self@,
                            list,
                            max_count as int,
                            list.len() as int,
                        )
                    };
                    final(disk)@ == d && r is Ok && r->Ok_0 == n
                },
            },
    {
        let ghost d = disk@;
        let backups = self.list_backups(disk, times)?;
        let ghost list = backup_views(backups@);
        if max_count == 0 || backups.len() <= max_count as usize {
            return Ok(0);
        }
        let mut pruned: u32 = 0;
        let mut i: usize = max_count as usize;
        while i < backups.len()
            invariant
                max_count <= i <= backups@.len() <= u32::MAX,
                d == old(disk)@,
                mild(*old(disk), *disk),
                list == backup_views(backups@),
                (disk@, pruned as nat) == backups_pruned(
                    d,
                    self@,
                    list,
                    max_count as int,
                    i as int,
                ),
                pruned <= i - max_count,
            decreases backups@.len() - i,
        {
            assert(list[i as int] == backups@[i as int]@);
            if self.drop_backup(disk, backups[i].file_name.as_str()) {
                pruned = pruned + 1;
            }
            i = i + 1;
        }
        Ok(pruned)
    }

    /// What is known of a backup. `made` is when its directory was made, for a
    /// name that does not tell.
    pub fn get_backup_info(&self, disk: &Disk, file_name: &str, made: u64) -> (r: Result<
        AddonsBackup,
        Error,
    >)
        requires
            backup_path(self@, file_name@) matches Ok(p) ==> fits(tree_stats(disk@, p)),
        ensures
            match r {
                Ok(b) => backup_path(self@, file_name@) is Ok && is_dir_at(
                    disk@,
                    backup_path(self@, file_name@)->Ok_0,
                ) && b@ == backup_info(disk@, backup_dir_of(self@->0), file_name@, made),
                Err(e) => match backup_path(self@, file_name@) {
                    Err(f) => e@ == f,
                    Ok(p) => !is_dir_at(disk@, p) && e@ == (if exists_at(disk@, p) {
                        ErrorView::Io(cannot_text("list"@, p))
                    } else {
                        ErrorView::BackupNotFound
                    }),
                },
            },
    {
        let path = self.resolve_backup_path(file_name)?;
        if !disk.has(&path) {
            return Err(Error::BackupNotFound);
        }
        if !disk.is_dir(&path) {
            let mut m: String = "Cannot list ".to_owned();
            m.append(path.to_text().as_str());
            proof {
                reveal_strlit("Cannot list ");
                reveal_strlit("Cannot ");
                reveal_strlit("list");
                reveal_strlit(" ");
                assert("Cannot list "@ =~= "Cannot "@ + "list"@ + " "@);
                assert(m@ =~= cannot_text("list"@, path@));
            }
            return Err(Error::Io(m));
        }
        let dir = self.get_backup_directory()?;
        Ok(describe(disk, &dir, file_name, made))
    }
}

} // verus!
