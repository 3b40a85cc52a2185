//! The profiles of a game: folders among the addons, each with its own mods.
use crate::{shard, shard_store, text};
use crate::disk::{
    cannot_text, dirs_possible, exists_at, is_dir_at, lemma_filter_push, names_in, same_at,
    with_dirs, Disk, DiskView,
};
use crate::error::{texts_result, unit_result, Error, ErrorView};
use crate::journal::{group_journal, moved_then_removed, ordered, undoable};
use crate::manager::{
    addons_root, addons_root_of, profile_base, with_repo, ManagerView, ModManager, RepoView,
};
use crate::manager::gameinfo::paths_read;
use crate::manager::lifecycle::{changed_as_whole, mods_hydrated};
use crate::manager::reorder::profile_migrated;
use crate::manifest_store::{loaded, manifest_result, saved};
use crate::path::{path_join, PathView, TreePath};
use crate::shard::{safe_search_folder, search_path_char, ShardIndex};
use crate::shard_store::profile_removed;
use crate::text::{contains_text, lowercase, opt_text, starts_with, texts, whitespace};
use crate::vpk_manifest::{
    marked_disabled, marked_enabled, EntryView, ManifestView, ProfileVpkManifest,
};
use vstd::prelude::*;
use vstd::string::*;

pub mod holdings;
pub mod import;
pub mod importing;
pub mod vpks;

verus! {

broadcast use group_journal;

// ---------------------------------------------------------------------------
// Folder names
// ---------------------------------------------------------------------------

/// What a character becomes in a folder name; `space` says whether it is white space.
/// Only what a search path can hold is kept.
pub open spec fn folder_char(c: char, space: bool) -> char {
    if search_path_char(c) {
        c
    } else if space {
        '-'
    } else {
        '_'
    }
}

pub open spec fn is_mark(c: char) -> bool {
    c == '-' || c == '_'
}

/// The first position from `k` on that is no mark, or the length.
pub open spec fn mark_start(s: Seq<char>, k: int) -> int
    decreases s.len() - k,
{
    if k < 0 || k >= s.len() {
        s.len() as int
    } else if is_mark(s[k]) {
        mark_start(s, k + 1)
    } else {
        k
    }
}

/// The last position up to `k` behind which only marks stand.
pub open spec fn mark_end(s: Seq<char>, k: int) -> int
    decreases k,
{
    if k <= 0 || k > s.len() {
        0
    } else if is_mark(s[k - 1]) {
        mark_end(s, k - 1)
    } else {
        k
    }
}

/// A text without the marks at either end.
pub open spec fn without_marks(s: Seq<char>) -> Seq<char> {
    let a = mark_start(s, 0);
    let b = mark_end(s, s.len() as int);
    if a < b {
        s.subrange(a, b)
    } else {
        Seq::empty()
    }
}

/// A text in lower case made fit for a folder name.
pub open spec fn folder_text(lower: Seq<char>) -> Seq<char> {
    without_marks(lower.map_values(|c: char| folder_char(c, whitespace(c))))
}

/// The folder of a profile.
pub open spec fn profile_folder_name(id: Seq<char>, name: Seq<char>) -> Seq<char> {
    id + "_"@ + folder_text(lowercase(name))
}

/// What a character becomes in a folder name.
pub fn folder_char_of(c: char, space: bool) -> (r: char)
    ensures
        r == folder_char(c, space),
{
    if shard::is_search_path_char(c) {
        c
    } else if space {
        '-'
    } else {
        '_'
    }
}

/// Removes the marks at either end.
pub fn trim_marks(s: &str) -> (r: String)
    ensures
        r@ == without_marks(s@),
{
    let n: usize = s.unicode_len();
    let mut a: usize = 0;
    while a < n && (s.get_char(a) == '-' || s.get_char(a) == '_')
        invariant
            n == s@.len(),
            a <= n,
            mark_start(s@, 0) == mark_start(s@, a as int),
        decreases n - a,
    {
        a = a + 1;
    }
    let mut b: usize = n;
    while b > 0 && (s.get_char(b - 1) == '-' || s.get_char(b - 1) == '_')
        invariant
            n == s@.len(),
            b <= n,
            mark_end(s@, n as int) == mark_end(s@, b as int),
        decreases b,
    {
        b = b - 1;
    }
    if a < b {
        s.substring_char(a, b).to_owned()
    } else {
        let r = String::new();
        assert(r@ =~= Seq::<char>::empty());
        r
    }
}

fn sanitize(lower: &str) -> (r: String)
    ensures
        r@ == folder_text(lower@),
{
    let ghost want = lower@.map_values(|c: char| folder_char(c, whitespace(c)));
    let n: usize = lower.unicode_len();
    let mut out: String = String::new();
    let mut i: usize = 0;
    assert(out@ =~= want.take(0));
    while i < n
        invariant
            i <= n == lower@.len(),
            want == lower@.map_values(
                |c: char| folder_char(c, whitespace(c)),
            ),
            out@ == want.take(i as int),
        decreases n - i,
    {
        let c = lower.get_char(i);
        out.push(folder_char_of(c, c.is_whitespace()));
        assert(out@ =~= want.take(i + 1));
        i = i + 1;
    }
    assert(want.take(n as int) =~= want);
    trim_marks(out.as_str())
}

/// The folder of a profile.
pub fn name_profile_folder(profile_id: &str, profile_name: &str) -> (r: String)
    ensures
        r@ == profile_folder_name(profile_id@, profile_name@),
{
    let lower = profile_name.to_lowercase();
    let name = sanitize(lower.as_str());
    let mut r: String = profile_id.to_owned();
    r.append("_");
    r.append(name.as_str());
    r
}

proof fn lemma_folder_text(lower: Seq<char>)
    ensures
        forall|i: int|
            0 <= i < folder_text(lower).len() ==> search_path_char(
                #[trigger] folder_text(lower)[i],
            ),
{
    let all = lower.map_values(|c: char| folder_char(c, whitespace(c)));
    let a = mark_start(all, 0);
    lemma_mark_start(all, 0);
    lemma_mark_end(all, all.len() as int);
    assert forall|i: int| 0 <= i < folder_text(lower).len() implies search_path_char(
        #[trigger] folder_text(lower)[i],
    ) by {
        assert(folder_text(lower)[i] == all[a + i]);
        assert(all[a + i] == folder_char(lower[a + i], whitespace(lower[a + i])));
    }
}

proof fn lemma_mark_start(s: Seq<char>, k: int)
    requires
        0 <= k <= s.len(),
    ensures
        k <= mark_start(s, k) <= s.len(),
    decreases s.len() - k,
{
    if k < s.len() {
        lemma_mark_start(s, k + 1);
    }
}

proof fn lemma_mark_end(s: Seq<char>, k: int)
    requires
        0 <= k <= s.len(),
    ensures
        0 <= mark_end(s, k) <= k,
    decreases k,
{
    if k > 0 {
        lemma_mark_end(s, k - 1);
    }
}

/// A profile whose id is safe in a search path gets a folder whose name is, whatever
/// the name of the profile; the name of the folder begins with the id and an
/// underscore. A folder that is there keeps what it holds, and so does everything
/// else.
pub proof fn law_created_folders_are_safe(
    d: DiskView,
    game: Option<PathView>,
    id: Seq<char>,
    name: Seq<char>,
)
    requires
        safe_search_folder(id),
        profile_made(d, game, id, name).1 is Ok,
    ensures
        ({
            let folder = profile_made(d, game, id, name).1->Ok_0;
            &&& safe_search_folder(folder)
            &&& starts_with(folder, id + "_"@)
            &&& forall|q: PathView| #[trigger]
                d.contains_key(q) ==> same_at(d, profile_made(d, game, id, name).0, q)
        }),
{
    let folder = profile_folder_name(id, name);
    let text = folder_text(lowercase(name));
    lemma_folder_text(lowercase(name));
    reveal_strlit("_");
    let n = id.len() as int;
    assert forall|i: int| 0 <= i < folder.len() implies search_path_char(#[trigger] folder[i]) by {
        if i < n {
            assert(folder[i] == id[i]);
        } else if i == n {
            assert(folder[i] == '_');
        } else {
            assert(folder[i] == text[i - n - 1]);
        }
    }
    assert(folder.take(n + 1) =~= id + "_"@);
}

// ---------------------------------------------------------------------------
// Making, deleting, listing and switching profiles
// ---------------------------------------------------------------------------

/// The folder of a profile, or that of the default one.
pub open spec fn folder_path(game: PathView, folder: Option<Seq<char>>) -> PathView {
    match folder {
        Some(f) => path_join(addons_root(game), f),
        None => addons_root(game),
    }
}

pub fn folder_path_of(game: &TreePath, folder: &Option<String>) -> (r: TreePath)
    ensures
        r@ == folder_path(game@, opt_text(*folder)),
{
    match folder {
        Some(f) => addons_root_of(game).join(f.as_str()),
        None => addons_root_of(game),
    }
}

/// Making a folder among the addons, unless it is there.
pub open spec fn folder_made(d: DiskView, game: Option<PathView>, folder: Seq<char>) -> (
    DiskView,
    Result<(), ErrorView>,
) {
    match game {
        None => (d, Err(ErrorView::GamePathNotSet)),
        Some(g) => {
            let p = folder_path(g, Some(folder));
            if exists_at(d, p) {
                (d, Ok(()))
            } else if dirs_possible(d, p) {
                (with_dirs(d, p), Ok(()))
            } else {
                (d, Err(ErrorView::Io(cannot_text("create directory"@, p))))
            }
        },
    }
}

/// Makes a folder among the addons, unless it is there.
pub fn make_folder(manager: &ModManager, disk: &mut Disk, folder: &str) -> (r: Result<(), Error>)
    ensures
        undoable(*old(disk), *final(disk)),
        (final(disk)@, unit_result(r)) == folder_made(old(disk)@, manager@.game_path, folder@),
{
    match &manager.game_path {
        None => Err(Error::GamePathNotSet),
        Some(g) => {
            let path = addons_root_of(g).join(folder);
            if disk.has(&path) {
                return Ok(());
            }
            disk.create_dir_all(&path)
        },
    }
}

pub open spec fn text_result(r: Result<String, Error>) -> Result<Seq<char>, ErrorView> {
    match r {
        Ok(s) => Ok(s@),
        Err(e) => Err(e@),
    }
}

/// Making the folder of a new profile.
pub open spec fn profile_made(
    d: DiskView,
    game: Option<PathView>,
    id: Seq<char>,
    name: Seq<char>,
) -> (DiskView, Result<Seq<char>, ErrorView>) {
    let folder = profile_folder_name(id, name);
    let (d1, r) = folder_made(d, game, folder);
    match r {
        Err(e) => (d1, Err(e)),
        Ok(_) => (d1, Ok(folder)),
    }
}

/// Makes the folder of a new profile, and returns its name.
pub fn create_profile_folder(
    manager: &ModManager,
    disk: &mut Disk,
    profile_id: &str,
    profile_name: &str,
) -> (r: Result<String, Error>)
    ensures
        undoable(*old(disk), *final(disk)),
        (final(disk)@, text_result(r)) == profile_made(
            old(disk)@,
            manager@.game_path,
            profile_id@,
            profile_name@,
        ),
{
    let folder = name_profile_folder(profile_id, profile_name);
    make_folder(manager, disk, folder.as_str())?;
    Ok(folder)
}

/// Why a folder is not one of a profile.
pub open spec fn folder_fault(f: Seq<char>) -> Option<ErrorView> {
    if f.len() == 0 || f == "."@ || f == ".."@ {
        Some(ErrorView::InvalidInput("Invalid profile folder name"@))
    } else if !starts_with(f, "profile_"@) {
        Some(ErrorView::InvalidInput("Profile folder must start with 'profile_'"@))
    } else if contains_text(f, ".."@) || contains_text(f, "/"@) || contains_text(f, "\\"@) {
        Some(ErrorView::InvalidInput("Invalid profile folder name"@))
    } else {
        None
    }
}

/// Deleting a profile.
pub open spec fn profile_deleted(d: DiskView, game: Option<PathView>, folder: Seq<char>) -> (
    DiskView,
    Result<(), ErrorView>,
) {
    match folder_fault(folder) {
        Some(e) => (d, Err(e)),
        None => match game {
            None => (d, Err(ErrorView::GamePathNotSet)),
            Some(g) => {
                let (d1, r) = profile_removed(d, addons_root(g).push(folder));
                match r {
                    Err(e) => (d1, Err(e)),
                    Ok(_) => (d1, Ok(())),
                }
            },
        },
    }
}

fn check_folder(f: &str) -> (r: Result<(), Error>)
    ensures
        match r {
            Ok(_) => folder_fault(f@) is None,
            Err(e) => folder_fault(f@) == Some(e@),
        },
{
    if f.unicode_len() == 0 || text::same_text(f, ".") || text::same_text(f, "..") {
        return Err(Error::InvalidInput("Invalid profile folder name".to_owned()));
    }
    if !text::begins(f, "profile_") {
        return Err(Error::InvalidInput("Profile folder must start with 'profile_'".to_owned()));
    }
    if text::has_text(f, "..") || text::has_text(f, "/") || text::has_text(f, "\\") {
        return Err(Error::InvalidInput("Invalid profile folder name".to_owned()));
    }
    Ok(())
}

/// Deletes a profile with all its shards.
pub fn delete_profile_folder(manager: &ModManager, disk: &mut Disk, profile_folder: &str) -> (r:
    Result<(), Error>)
    ensures
        moved_then_removed(*old(disk), *final(disk)),
        (final(disk)@, unit_result(r)) == profile_deleted(
            old(disk)@,
            manager@.game_path,
            profile_folder@,
        ),
{
    check_folder(profile_folder)?;
    match &manager.game_path {
        None => Err(Error::GamePathNotSet),
        Some(g) => {
            let base = addons_root_of(g).child(profile_folder);
            shard_store::remove_profile_shards(disk, &base)?;
            Ok(())
        },
    }
}

/// Switching to a profile: migrating it, and the search paths to write for it.
pub open spec fn profile_switched(d: DiskView, m: ManagerView, folder: Option<Seq<char>>) -> (
    DiskView,
    RepoView,
    Result<Seq<Seq<char>>, ErrorView>,
) {
    let (d1, repo, r) = profile_migrated(d, m, folder);
    match r {
        Err(e) => (d1, repo, Err(e)),
        Ok(_) => {
            let (d2, paths) = paths_read(d1, m.game_path, folder);
            (d2, repo, paths)
        },
    }
}

/// Switches to a profile, and returns the search paths to write for it.
pub fn switch_profile(manager: &mut ModManager, disk: &mut Disk, profile_folder: &Option<String>) -> (r:
    Result<Vec<String>, Error>)
    ensures
        ordered(*old(disk), *final(disk)),
        ({
            let (d, repo, out) = profile_switched(
                old(disk)@,
                old(manager)@,
                opt_text(*profile_folder),
            );
            final(disk)@ == d && final(manager)@ == with_repo(old(manager)@, repo) && texts_result(
                r,
            ) == out
        }),
{
    manager.migrate_profile_to_shards(disk, profile_folder)?;
    manager.apply_profile_gameinfo(disk, profile_folder)
}

/// Brings the shards of a profile back into agreement with its manifest without a
/// switch, and returns the search paths to write for it.
pub fn resync_profile_shards(
    manager: &mut ModManager,
    disk: &mut Disk,
    profile_folder: &Option<String>,
) -> (r: Result<Vec<String>, Error>)
    ensures
        ordered(*old(disk), *final(disk)),
        ({
            let (d, repo, out) = profile_switched(
                old(disk)@,
                old(manager)@,
                opt_text(*profile_folder),
            );
            final(disk)@ == d && final(manager)@ == with_repo(old(manager)@, repo) && texts_result(
                r,
            ) == out
        }),
{
    switch_profile(manager, disk, profile_folder)
}

pub open spec fn is_profile_in(d: DiskView, dir: PathView, name: Seq<char>) -> bool {
    is_dir_at(d, dir.push(name)) && starts_with(name, "profile_"@)
}

/// The profile folders of a game, by name.
pub open spec fn profiles_listed(d: DiskView, game: Option<PathView>) -> Result<
    Seq<Seq<char>>,
    ErrorView,
> {
    match game {
        None => Err(ErrorView::GamePathNotSet),
        Some(g) => {
            let dir = addons_root(g);
            if !exists_at(d, dir) {
                Ok(Seq::empty())
            } else if !is_dir_at(d, dir) {
                Err(ErrorView::Io(cannot_text("list"@, dir)))
            } else {
                Ok(names_in(d, dir).filter(|n: Seq<char>| is_profile_in(d, dir, n)))
            }
        },
    }
}

/// The failure to list a directory.
pub fn cannot_list(p: &TreePath) -> (r: Error)
    ensures
        r@ == ErrorView::Io(cannot_text("list"@, p@)),
{
    let mut m: String = "Cannot list ".to_owned();
    m.append(p.to_text().as_str());
    proof {
        reveal_strlit("Cannot list ");
        reveal_strlit("Cannot ");
        reveal_strlit("list");
        reveal_strlit(" ");
        assert("Cannot list "@ =~= "Cannot "@ + "list"@ + " "@);
        assert(m@ =~= cannot_text("list"@, p@));
    }
    Error::Io(m)
}

/// Lists the profile folders of a game.
pub fn list_profile_folders(manager: &ModManager, disk: &Disk) -> (r: Result<Vec<String>, Error>)
    ensures
        texts_result(r) == profiles_listed(disk@, manager@.game_path),
{
    let dir = match &manager.game_path {
        None => {
            return Err(Error::GamePathNotSet);
        },
        Some(g) => addons_root_of(g),
    };
    let mut out: Vec<String> = Vec::new();
    assert(texts(out@) =~= Seq::<Seq<char>>::empty());
    if !disk.has(&dir) {
        return Ok(out);
    }
    if !disk.is_dir(&dir) {
        return Err(cannot_list(&dir));
    }
    let names = disk.names(&dir);
    let ghost d = disk@;
    let ghost all = names_in(d, dir@);
    let ghost pred = |n: Seq<char>| is_profile_in(d, dir@, n);
    let mut i: usize = 0;
    proof {
        reveal(Seq::filter);
        assert(all.take(0).filter(pred) =~= Seq::<Seq<char>>::empty());
    }
    while i < names.len()
        invariant
            i <= names@.len(),
            d == disk@,
            texts(names@) == all,
            pred == (|n: Seq<char>| is_profile_in(d, dir@, n)),
            texts(out@) == all.take(i as int).filter(pred),
        decreases names@.len() - i,
    {
        let name = names[i].clone();
        proof {
            assert(all[i as int] == name@);
            assert(all.take(i + 1) =~= all.take(i as int).push(name@));
            lemma_filter_push(all.take(i as int), name@, pred);
            text::lemma_texts_push(out@, name);
        }
        if disk.is_dir(&dir.child(name.as_str())) && text::begins(name.as_str(), "profile_") {
            out.push(name);
        }
        i = i + 1;
    }
    assert(all.take(all.len() as int) =~= all);
    Ok(out)
}

// ---------------------------------------------------------------------------
// The manifest of a profile
// ---------------------------------------------------------------------------

/// Learning the mods of a profile, and reading its manifest.
pub open spec fn manifest_read(d: DiskView, m: ManagerView, folder: Option<Seq<char>>) -> (
    DiskView,
    RepoView,
    Result<ManifestView, ErrorView>,
) {
    let (d1, repo, r) = mods_hydrated(d, m, folder);
    match r {
        Err(e) => (d1, repo, Err(e)),
        Ok(_) => match profile_base(m.game_path, folder) {
            Err(e) => (d1, repo, Err(e)),
            Ok(b) => {
                let (d2, out) = loaded(d1, b.path);
                (d2, repo, out)
            },
        },
    }
}

/// Learns the mods of a profile, and returns its manifest.
pub fn get_profile_vpk_manifest(
    manager: &mut ModManager,
    disk: &mut Disk,
    profile_folder: &Option<String>,
) -> (r: Result<ProfileVpkManifest, Error>)
    ensures
        ordered(*old(disk), *final(disk)),
        ({
            let (d, repo, out) = manifest_read(
                old(disk)@,
                old(manager)@,
                opt_text(*profile_folder),
            );
            final(disk)@ == d && final(manager)@ == with_repo(old(manager)@, repo)
                && manifest_result(r) == out
        }),
{
    manager.hydrate_mods_from_manifest(disk, profile_folder)?;
    let base = manager.get_addons_path(profile_folder)?;
    ProfileVpkManifest::load(disk, base.path())
}

/// What is known of a mod that no manifest records yet.
#[derive(Debug)]
pub struct SeedManifestEntry {
    pub mod_id: String,
    pub enabled: bool,
    pub shard: ShardIndex,
    pub current_vpks: Vec<String>,
    pub disabled_vpks: Vec<String>,
    pub original_vpk_names: Vec<String>,
    pub order: Option<u32>,
}

pub struct SeedView {
    pub mod_id: Seq<char>,
    pub entry: EntryView,
}

impl View for SeedManifestEntry {
    type V = SeedView;

    open spec fn view(&self) -> SeedView {
        SeedView {
            mod_id: self.mod_id@,
            entry: EntryView {
                enabled: self.enabled,
                order: self.order,
                shard: self.shard.number(),
                current: texts(self.current_vpks@),
                disabled: texts(self.disabled_vpks@),
                original: texts(self.original_vpk_names@),
            },
        }
    }
}

pub open spec fn seed_views(v: Seq<SeedManifestEntry>) -> Seq<SeedView> {
    v.map_values(|s: SeedManifestEntry| s@)
}

/// The shard of a seed that names none.
pub fn default_seed_shard() -> (r: ShardIndex)
    ensures
        r.number() == 1,
{
    ShardIndex::first()
}

/// A manifest with one more mod, unless it records the mod already.
pub open spec fn seeded(m: ManifestView, s: SeedView) -> ManifestView {
    if m.mods.contains_key(s.mod_id) {
        m
    } else if s.entry.enabled {
        marked_enabled(
            m,
            s.mod_id,
            s.entry.current,
            s.entry.original,
            s.entry.order,
            s.entry.shard,
        )
    } else {
        marked_disabled(m, s.mod_id, s.entry.disabled, s.entry.original)
    }
}

/// A manifest with the first `k` of a list of mods.
pub open spec fn seeded_first(m: ManifestView, seeds: Seq<SeedView>, k: int) -> ManifestView
    decreases k,
{
    if k <= 0 {
        m
    } else {
        seeded(seeded_first(m, seeds, k - 1), seeds[k - 1])
    }
}

/// Whether one of the first `k` of a list of mods is not recorded yet.
pub open spec fn seeds_new(m: ManifestView, seeds: Seq<SeedView>, k: int) -> bool {
    exists|i: int| 0 <= i < k && !m.mods.contains_key((#[trigger] seeds[i]).mod_id)
}

/// Recording mods that the manifest of a profile lacks. It is only written if
/// there are any.
pub open spec fn manifest_seeded(
    d: DiskView,
    game: Option<PathView>,
    folder: Option<Seq<char>>,
    seeds: Seq<SeedView>,
) -> (DiskView, Result<(), ErrorView>) {
    match profile_base(game, folder) {
        Err(e) => (d, Err(e)),
        Ok(b) => {
            let (d1, l) = loaded(d, b.path);
            match l {
                Err(e) => (d1, Err(e)),
                Ok(m) => if seeds_new(m, seeds, seeds.len() as int) {
                    saved(d1, b.path, seeded_first(m, seeds, seeds.len() as int))
                } else {
                    (d1, Ok(()))
                },
            }
        },
    }
}

proof fn lemma_seeded_keys(m: ManifestView, seeds: Seq<SeedView>, k: int)
    requires
        0 <= k <= seeds.len(),
    ensures
        forall|id: Seq<char>|
            m.mods.contains_key(id) ==> #[trigger] seeded_first(m, seeds, k).mods.contains_key(id),
        !seeds_new(m, seeds, k) ==> seeded_first(m, seeds, k) == m,
    decreases k,
{
    assert forall|id: Seq<char>| m.mods.contains_key(id) implies #[trigger] seeded_first(
        m,
        seeds,
        k,
    ).mods.contains_key(id) by {
        lemma_seeding_keeps(m, seeds, k, id);
    }
    if k > 0 {
        lemma_seeded_keys(m, seeds, k - 1);
        if !seeds_new(m, seeds, k) {
            assert(!seeds_new(m, seeds, k - 1));
            assert(m.mods.contains_key(seeds[k - 1].mod_id));
        }
    }
}

/// What the manifest records of a mod is not changed by seeding.
pub proof fn law_seeding_keeps_recorded_mods(m: ManifestView, seeds: Seq<SeedView>, id: Seq<char>)
    requires
        m.mods.contains_key(id),
    ensures
        seeded_first(m, seeds, seeds.len() as int).mods.contains_key(id),
        seeded_first(m, seeds, seeds.len() as int).mods[id] == m.mods[id],
{
    lemma_seeding_keeps(m, seeds, seeds.len() as int, id);
}

proof fn lemma_seeding_keeps(m: ManifestView, seeds: Seq<SeedView>, k: int, id: Seq<char>)
    requires
        m.mods.contains_key(id),
    ensures
        seeded_first(m, seeds, k).mods.contains_key(id),
        seeded_first(m, seeds, k).mods[id] == m.mods[id],
    decreases k,
{
    if k > 0 {
        lemma_seeding_keeps(m, seeds, k - 1, id);
    }
}

/// Records mods that the manifest of a profile lacks.
pub fn seed_profile_vpk_manifest_entries(
    manager: &ModManager,
    disk: &mut Disk,
    profile_folder: &Option<String>,
    entries: &Vec<SeedManifestEntry>,
) -> (r: Result<(), Error>)
    ensures
        ordered(*old(disk), *final(disk)),
        (final(disk)@, unit_result(r)) == manifest_seeded(
            old(disk)@,
            manager@.game_path,
            opt_text(*profile_folder),
            seed_views(entries@),
        ),
        changed_as_whole(*old(disk), manager@, opt_text(*profile_folder), *final(disk), r is Ok),
{
    let base = manager.get_addons_path(profile_folder)?;
    let mut manifest = ProfileVpkManifest::load(disk, base.path())?;
    let ghost before = manifest@;
    let ghost seeds = seed_views(entries@);
    let mut changed = false;
    let mut i: usize = 0;
    while i < entries.len()
        invariant
            i <= entries@.len(),
            seeds == seed_views(entries@),
            manifest@ == seeded_first(before, seeds, i as int),
            changed == seeds_new(before, seeds, i as int),
        decreases entries@.len() - i,
    {
        let e = &entries[i];
        let known = manifest.mods.contains(&e.mod_id);
        proof {
            lemma_seeded_keys(before, seeds, i as int);
            assert(seeds[i as int] == e@);
            if seeds_new(before, seeds, i as int) {
                let j = choose|j: int|
                    0 <= j < i && !before.mods.contains_key((#[trigger] seeds[j]).mod_id);
                assert(!before.mods.contains_key(seeds[j].mod_id));
                assert(seeds_new(before, seeds, i + 1));
            }
        }
        if !known {
            assert(!before.mods.contains_key(seeds[i as int].mod_id));
            if e.enabled {
                manifest.mark_enabled(
                    e.mod_id.as_str(),
                    text::copy_texts(&e.current_vpks),
                    text::copy_texts(&e.original_vpk_names),
                    e.order,
                    e.shard,
                );
            } else {
                manifest.mark_disabled(
                    e.mod_id.as_str(),
                    text::copy_texts(&e.disabled_vpks),
                    text::copy_texts(&e.original_vpk_names),
                );
            }
            changed = true;
        } else {
            proof {
                if seeds_new(before, seeds, i + 1) && !seeds_new(before, seeds, i as int) {
                    let j = choose|j: int|
                        0 <= j < i + 1 && !before.mods.contains_key((#[trigger] seeds[j]).mod_id);
                    assert(j == i);
                }
            }
        }
        i = i + 1;
    }
    if changed {
        manifest.save_whole(disk, base.path())?;
    }
    Ok(())
}

} // verus!
