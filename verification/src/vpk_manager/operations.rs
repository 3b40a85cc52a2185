//! Enabling and disabling the VPK files of a mod.
use super::{naming, staging, MissingVpkPolicy, VpkManager};
use super::naming::{enabled_count, free_from, pak_name};
use super::staging::no_free_name_text;
use crate::{path, text};
use crate::disk::{
    can_rename, cannot_text, dirs_possible, exists_at, is_dir_at, is_file_at, names_in, renamed,
    with_dirs, Disk, DiskView,
};
use crate::error::{texts_result, unit_result, Error, ErrorView};
use crate::journal::{group_journal, undoable};
use crate::path::{base_name, path_join, vpk_name, PathView, TreePath};
use crate::shard::SHARD_CAPACITY;
use crate::text::{dec, joined, starts_with, texts};
use vstd::prelude::*;
use vstd::string::*;

verus! {

broadcast use group_journal;

// ---------------------------------------------------------------------------
// Disabled names
// ---------------------------------------------------------------------------

/// The name of a mod's file while it is disabled.
pub open spec fn prefixed(id: Seq<char>, name: Seq<char>) -> Seq<char> {
    id + "_"@ + name
}

/// The name of a mod's file while it is disabled.
pub fn prefixed_name(id: &str, name: &str) -> (r: String)
    ensures
        r@ == prefixed(id@, name@),
{
    let mut r: String = id.to_owned();
    r.append("_");
    r.append(name);
    r
}

/// A name in `dir` that is a disabled file of mod `id`.
pub open spec fn prefixed_in(d: DiskView, dir: PathView, id: Seq<char>, name: Seq<char>) -> bool {
    is_file_at(d, dir.push(name)) && vpk_name(name) && starts_with(name, id + "_"@)
}

/// The disabled files of a mod, in the order of their names.
pub open spec fn prefixed_names(d: DiskView, dir: PathView, id: Seq<char>) -> Seq<Seq<char>> {
    names_in(d, dir).filter(|n: Seq<char>| prefixed_in(d, dir, id, n))
}

/// The disabled files of a mod; a directory that is missing holds none.
pub open spec fn prefixed_found(d: DiskView, dir: PathView, id: Seq<char>) -> Result<
    Seq<Seq<char>>,
    ErrorView,
> {
    if !exists_at(d, dir) {
        Ok(Seq::empty())
    } else if !is_dir_at(d, dir) {
        Err(ErrorView::Io(cannot_text("list"@, dir)))
    } else {
        Ok(prefixed_names(d, dir, id))
    }
}

// ---------------------------------------------------------------------------
// Enabling
// ---------------------------------------------------------------------------

/// The names of a list that are missing in a directory.
pub open spec fn missing_in(d: DiskView, dir: PathView, names: Seq<Seq<char>>) -> Seq<Seq<char>> {
    names.filter(|n: Seq<char>| !exists_at(d, path_join(dir, n)))
}

/// Giving the first `k` of a list of files the next free numbers, one by one.
pub open spec fn enable_first(
    d: DiskView,
    from: PathView,
    to: PathView,
    names: Seq<Seq<char>>,
    k: int,
) -> Result<(DiskView, Seq<Seq<char>>), ErrorView>
    decreases k,
{
    if k <= 0 {
        Ok((d, Seq::empty()))
    } else {
        match enable_first(d, from, to, names, k - 1) {
            Err(e) => Err(e),
            Ok((d1, out)) => match free_from(d1, to, 1) {
                None => Err(ErrorView::ModInvalid(no_free_name_text(to))),
                Some(n) => {
                    let source = path_join(from, names[k - 1]);
                    let target = to.push(pak_name(n));
                    if can_rename(d1, source, target) {
                        Ok((renamed(d1, source, target), out.push(pak_name(n))))
                    } else {
                        Err(ErrorView::Io(cannot_text("rename"@, source)))
                    }
                },
            },
        }
    }
}

/// The tree in which the enabled files of a mod find room, and whether they do.
pub open spec fn room_made(
    d: DiskView,
    from: PathView,
    to: PathView,
    id: Seq<char>,
    names: Seq<Seq<char>>,
) -> (DiskView, Result<(), ErrorView>) {
    let missing = missing_in(d, from, names);
    if missing.len() > 0 {
        (
            d,
            Err(
                ErrorView::ModInvalid(
                    "Cannot enable mod "@ + id + " because source VPK files are missing: "@
                        + joined(missing, ", "@),
                ),
            ),
        )
    } else if to != from && !dirs_possible(d, to) {
        (d, Err(ErrorView::Io(cannot_text("create directory"@, to))))
    } else {
        let d1 = if to != from {
            with_dirs(d, to)
        } else {
            d
        };
        if enabled_count(d1, to) + names.len() > SHARD_CAPACITY {
            (
                d1,
                Err(
                    ErrorView::ModInvalid(
                        "Enabling mod "@ + id
                            + " would exceed the 99 VPK files allowed in one addon folder"@,
                    ),
                ),
            )
        } else {
            (d1, Ok(()))
        }
    }
}

/// Enabling a mod: its files leave `from` and take free numbers in `to`. A failure
/// leaves every file where it was.
pub open spec fn enabled(
    d: DiskView,
    from: PathView,
    to: PathView,
    id: Seq<char>,
    names: Seq<Seq<char>>,
) -> (DiskView, Result<Seq<Seq<char>>, ErrorView>) {
    if names.len() == 0 {
        (d, Ok(Seq::empty()))
    } else {
        let (d1, room) = room_made(d, from, to, id, names);
        match room {
            Err(e) => (d1, Err(e)),
            Ok(_) => match enable_first(d1, from, to, names, names.len() as int) {
                Err(e) => (d1, Err(e)),
                Ok((d2, out)) => (d2, Ok(out)),
            },
        }
    }
}

proof fn lemma_enable_stops(
    d: DiskView,
    from: PathView,
    to: PathView,
    names: Seq<Seq<char>>,
    k: int,
    n: int,
)
    requires
        0 <= k <= n,
        enable_first(d, from, to, names, k) is Err,
    ensures
        enable_first(d, from, to, names, n) == enable_first(d, from, to, names, k),
    decreases n - k,
{
    if k < n {
        lemma_enable_stops(d, from, to, names, k, n - 1);
    }
}

// ---------------------------------------------------------------------------
// Disabling
// ---------------------------------------------------------------------------

/// The file names of a list of recorded VPKs.
pub open spec fn file_names(vpks: Seq<Seq<char>>) -> Seq<Seq<char>> {
    vpks.map_values(|v: Seq<char>| base_name(v))
}

/// An enabled file and the original name it goes back to.
pub type Pair = (Seq<char>, Seq<char>);

/// The pairs to disable: all of them, or those whose file is there.
pub open spec fn disable_pairs(
    d: DiskView,
    from: PathView,
    installed: Seq<Seq<char>>,
    original: Seq<Seq<char>>,
    policy: MissingVpkPolicy,
) -> Seq<Pair> {
    Seq::new(installed.len(), |i: int| (base_name(installed[i]), original[i])).filter(
        |p: Pair| policy == MissingVpkPolicy::Strict || exists_at(d, path_join(from, p.0)),
    )
}

/// The tree without the file at `p`, if there is one.
pub open spec fn forget(d: DiskView, p: PathView) -> DiskView {
    if is_file_at(d, p) {
        d.remove(p)
    } else {
        d
    }
}

/// Where disabling has got to: the tree, and the tree as it is after a failure,
/// in which removed files stay removed and renamed ones are back.
pub struct DisableState {
    pub work: DiskView,
    pub kept: DiskView,
    pub out: Result<Seq<Seq<char>>, ErrorView>,
}

/// Disabling one file. Where its disabled name is taken, by a variant already
/// there, the enabled file is removed instead.
pub open spec fn disable_one(
    s: DisableState,
    from: PathView,
    to: PathView,
    id: Seq<char>,
    p: Pair,
) -> DisableState {
    let source = path_join(from, p.0);
    let target = path_join(to, prefixed(id, p.1));
    match s.out {
        Err(e) => s,
        Ok(names) => if exists_at(s.work, target) {
            if is_file_at(s.work, source) {
                DisableState {
                    work: s.work.remove(source),
                    kept: forget(s.kept, source),
                    out: Ok(names.push(prefixed(id, p.1))),
                }
            } else {
                DisableState { out: Err(ErrorView::Io(cannot_text("remove"@, source))), ..s }
            }
        } else if can_rename(s.work, source, target) {
            DisableState {
                work: renamed(s.work, source, target),
                kept: s.kept,
                out: Ok(names.push(prefixed(id, p.1))),
            }
        } else {
            DisableState { out: Err(ErrorView::Io(cannot_text("rename"@, source))), ..s }
        },
    }
}

pub open spec fn disable_first(
    d: DiskView,
    from: PathView,
    to: PathView,
    id: Seq<char>,
    pairs: Seq<Pair>,
    k: int,
) -> DisableState
    decreases k,
{
    if k <= 0 {
        DisableState { work: d, kept: d, out: Ok(Seq::empty()) }
    } else {
        disable_one(disable_first(d, from, to, id, pairs, k - 1), from, to, id, pairs[k - 1])
    }
}

/// Disabling files that have been found.
pub open spec fn pairs_disabled(
    d: DiskView,
    from: PathView,
    to: PathView,
    id: Seq<char>,
    pairs: Seq<Pair>,
) -> (DiskView, Result<Seq<Seq<char>>, ErrorView>) {
    if pairs.len() == 0 {
        (d, Ok(Seq::empty()))
    } else if from != to && !dirs_possible(d, to) {
        (d, Err(ErrorView::Io(cannot_text("create directory"@, to))))
    } else {
        let d1 = if from != to {
            with_dirs(d, to)
        } else {
            d
        };
        let s = disable_first(d1, from, to, id, pairs, pairs.len() as int);
        match s.out {
            Ok(names) => (s.work, Ok(names)),
            Err(e) => (s.kept, Err(e)),
        }
    }
}

/// Disabling a mod: its files leave `from` and stand in `to` under their original
/// names, prefixed with the mod's id.
pub open spec fn disabled(
    d: DiskView,
    from: PathView,
    to: PathView,
    id: Seq<char>,
    installed: Seq<Seq<char>>,
    original: Seq<Seq<char>>,
    policy: MissingVpkPolicy,
) -> (DiskView, Result<Seq<Seq<char>>, ErrorView>) {
    if installed.len() == 0 {
        (d, Ok(Seq::empty()))
    } else if original.len() != installed.len() {
        (
            d,
            Err(
                ErrorView::ModInvalid(
                    "Cannot disable mod because original VPK name count ("@ + dec(original.len())
                        + ") does not match installed VPK count ("@ + dec(installed.len()) + ")"@,
                ),
            ),
        )
    } else {
        let missing = missing_in(d, from, file_names(installed));
        if missing.len() > 0 && policy == MissingVpkPolicy::Strict {
            (
                d,
                Err(
                    ErrorView::ModInvalid(
                        "Cannot disable mod because enabled VPK files are missing: "@ + joined(
                            missing,
                            ", "@,
                        ),
                    ),
                ),
            )
        } else {
            pairs_disabled(d, from, to, id, disable_pairs(d, from, installed, original, policy))
        }
    }
}

proof fn lemma_disable_stops(
    d: DiskView,
    from: PathView,
    to: PathView,
    id: Seq<char>,
    pairs: Seq<Pair>,
    k: int,
    n: int,
)
    requires
        0 <= k <= n,
        disable_first(d, from, to, id, pairs, k).out is Err,
    ensures
        disable_first(d, from, to, id, pairs, n) == disable_first(d, from, to, id, pairs, k),
    decreases n - k,
{
    if k < n {
        lemma_disable_stops(d, from, to, id, pairs, k, n - 1);
    }
}

pub open spec fn pair_views(v: Seq<(String, String)>) -> Seq<Pair> {
    v.map_values(|p: (String, String)| (p.0@, p.1@))
}

fn list_disable_pairs(
    disk: &Disk,
    from: &TreePath,
    installed: &Vec<String>,
    original: &Vec<String>,
    policy: MissingVpkPolicy,
) -> (r: Vec<(String, String)>)
    requires
        installed@.len() == original@.len(),
    ensures
        pair_views(r@) == disable_pairs(
            disk@,
            from@,
            texts(installed@),
            texts(original@),
            policy,
        ),
{
    let ghost iv = texts(installed@);
    let ghost ov = texts(original@);
    let ghost all = Seq::new(iv.len(), |i: int| (base_name(iv[i]), ov[i]));
    let ghost pred = |p: Pair|
        policy == MissingVpkPolicy::Strict || exists_at(disk@, path_join(from@, p.0));
    let mut r: Vec<(String, String)> = Vec::new();
    let mut i: usize = 0;
    proof {
        reveal(Seq::filter);
        assert(all.take(0).filter(pred) =~= Seq::<Pair>::empty());
        assert(pair_views(r@) =~= Seq::<Pair>::empty());
    }
    while i < installed.len()
        invariant
            i <= installed@.len() == original@.len(),
            iv == texts(installed@),
            ov == texts(original@),
            all == Seq::new(iv.len(), |i: int| (base_name(iv[i]), ov[i])),
            pred == (|p: Pair|
                policy == MissingVpkPolicy::Strict || exists_at(disk@, path_join(from@, p.0))),
            pair_views(r@) == all.take(i as int).filter(pred),
        decreases installed@.len() - i,
    {
        let name = path::base_name_of(installed[i].as_str());
        let orig = original[i].clone();
        proof {
            assert(all[i as int] == (name@, orig@));
            assert(all.take(i + 1) =~= all.take(i as int).push(all[i as int]));
            crate::disk::lemma_filter_push(all.take(i as int), all[i as int], pred);
        }
        if policy == MissingVpkPolicy::Strict || disk.has(&from.join(name.as_str())) {
            assert(pair_views(r@.push((name, orig))) =~= pair_views(r@).push((name@, orig@)));
            r.push((name, orig));
        }
        i = i + 1;
    }
    assert(all.take(all.len() as int) =~= all);
    r
}

/// Those of a list of names that are missing in a directory.
fn list_missing(disk: &Disk, dir: &TreePath, names: &Vec<String>) -> (r: Vec<String>)
    ensures
        texts(r@) == missing_in(disk@, dir@, texts(names@)),
        r@.len() == missing_in(disk@, dir@, texts(names@)).len(),
{
    let ghost all = texts(names@);
    let ghost pred = |n: Seq<char>| !exists_at(disk@, path_join(dir@, n));
    let mut r: Vec<String> = Vec::new();
    let mut i: usize = 0;
    proof {
        reveal(Seq::filter);
        assert(all.take(0).filter(pred) =~= Seq::<Seq<char>>::empty());
        assert(texts(r@) =~= Seq::<Seq<char>>::empty());
    }
    while i < names.len()
        invariant
            i <= names@.len(),
            all == texts(names@),
            pred == (|n: Seq<char>| !exists_at(disk@, path_join(dir@, n))),
            texts(r@) == all.take(i as int).filter(pred),
        decreases names@.len() - i,
    {
        proof {
            assert(all[i as int] == names@[i as int]@);
            assert(all.take(i + 1) =~= all.take(i as int).push(all[i as int]));
            crate::disk::lemma_filter_push(all.take(i as int), all[i as int], pred);
        }
        if !disk.has(&dir.join(names[i].as_str())) {
            let s = names[i].clone();
            proof {
                text::lemma_texts_push(r@, s);
            }
            r.push(s);
        }
        i = i + 1;
    }
    proof {
        assert(all.take(all.len() as int) =~= all);
        assert(texts(r@).len() == r@.len());
    }
    r
}

/// The file names of a list of recorded VPKs.
pub fn vpk_filenames(vpks: &Vec<String>) -> (r: Vec<String>)
    ensures
        texts(r@) == file_names(texts(vpks@)),
        r@.len() == vpks@.len(),
{
    let mut r: Vec<String> = Vec::new();
    let mut i: usize = 0;
    while i < vpks.len()
        invariant
            i <= vpks@.len(),
            r@.len() == i,
            forall|j: int| 0 <= j < i ==> (#[trigger] r@[j])@ == base_name(vpks@[j]@),
        decreases vpks@.len() - i,
    {
        r.push(path::base_name_of(vpks[i].as_str()));
        i = i + 1;
    }
    assert(texts(r@) =~= file_names(texts(vpks@)));
    r
}

impl VpkManager {
    /// The disabled files of a mod, in the order of their names.
    pub fn find_prefixed_vpks(&self, disk: &Disk, addons_path: &TreePath, mod_id: &str) -> (r:
        Result<Vec<String>, Error>)
        ensures
            texts_result(r) == prefixed_found(disk@, addons_path@, mod_id@),
    {
        let mut out: Vec<String> = Vec::new();
        assert(texts(out@) =~= Seq::<Seq<char>>::empty());
        if !disk.has(addons_path) {
            return Ok(out);
        }
        if !disk.is_dir(addons_path) {
            return Err(staging::cannot_list(addons_path));
        }
        let prefix = prefixed_name(mod_id, "");
        proof {
            reveal_strlit("");
            assert(prefix@ =~= mod_id@ + "_"@);
        }
        let names = disk.names(addons_path);
        let ghost all = names_in(disk@, addons_path@);
        let ghost pred = |n: Seq<char>| prefixed_in(disk@, addons_path@, mod_id@, n);
        let mut i: usize = 0;
        proof {
            reveal(Seq::filter);
            assert(all.take(0).filter(pred) =~= Seq::<Seq<char>>::empty());
        }
        while i < names.len()
            invariant
                i <= names@.len(),
                all == texts(names@),
                prefix@ == mod_id@ + "_"@,
                pred == (|n: Seq<char>| prefixed_in(disk@, addons_path@, mod_id@, n)),
                texts(out@) == all.take(i as int).filter(pred),
            decreases names@.len() - i,
        {
            proof {
                assert(all[i as int] == names@[i as int]@);
                assert(all.take(i + 1) =~= all.take(i as int).push(all[i as int]));
                crate::disk::lemma_filter_push(all.take(i as int), all[i as int], pred);
            }
            let name = names[i].as_str();
            if text::begins(name, prefix.as_str()) && path::is_vpk_name(name) && disk.is_file(
                &addons_path.child(name),
            ) {
                let s = names[i].clone();
                proof {
                    text::lemma_texts_push(out@, s);
                }
                out.push(s);
            }
            i = i + 1;
        }
        assert(all.take(all.len() as int) =~= all);
        Ok(out)
    }

    /// Checks that the files of a mod are there and have room, and makes the
    /// directory they go to.
    fn make_room(
        disk: &mut Disk,
        disabled_dir: &TreePath,
        enabled_dir: &TreePath,
        mod_id: &str,
        prefixed_vpks: &Vec<String>,
    ) -> (r: Result<(), Error>)
        ensures
            undoable(*old(disk), *final(disk)),
            (final(disk)@, unit_result(r)) == room_made(
                old(disk)@,
                disabled_dir@,
                enabled_dir@,
                mod_id@,
                texts(prefixed_vpks@),
            ),
    {
        let missing = list_missing(disk, disabled_dir, prefixed_vpks);
        if missing.len() > 0 {
            let mut m: String = "Cannot enable mod ".to_owned();
            m.append(mod_id);
            m.append(" because source VPK files are missing: ");
            m.append(text::join_texts(&missing, ", ").as_str());
            return Err(Error::ModInvalid(m));
        }
        if !enabled_dir.equals(disabled_dir) {
            disk.create_dir_all(enabled_dir)?;
        }
        let used: usize = VpkManager::count_enabled_vpks(disk, enabled_dir);
        assert(texts(prefixed_vpks@).len() == prefixed_vpks@.len());
        let capacity: usize = 99;
        if used > capacity || prefixed_vpks.len() > capacity - used {
            let mut m: String = "Enabling mod ".to_owned();
            m.append(mod_id);
            m.append(" would exceed the 99 VPK files allowed in one addon folder");
            return Err(Error::ModInvalid(m));
        }
        Ok(())
    }

    /// Enables a mod: its disabled files in `disabled_dir` take the next free
    /// numbers in `enabled_dir`.
    pub fn enable_vpks_in(
        &self,
        disk: &mut Disk,
        disabled_dir: &TreePath,
        enabled_dir: &TreePath,
        mod_id: &str,
        prefixed_vpks: &Vec<String>,
    ) -> (r: Result<Vec<String>, Error>)
        ensures
            undoable(*old(disk), *final(disk)),
            (final(disk)@, texts_result(r)) == enabled(
                old(disk)@,
                disabled_dir@,
                enabled_dir@,
                mod_id@,
                texts(prefixed_vpks@),
            ),
    {
        let mut new_names: Vec<String> = Vec::new();
        assert(texts(new_names@) =~= Seq::<Seq<char>>::empty());
        let ghost names = texts(prefixed_vpks@);
        if prefixed_vpks.len() == 0 {
            return Ok(new_names);
        }
        VpkManager::make_room(disk, disabled_dir, enabled_dir, mod_id, prefixed_vpks)?;
        let mut work = disk.duplicate();
        let ghost d1 = disk@;
        let mut i: usize = 0;
        while i < prefixed_vpks.len()
            invariant
                i <= prefixed_vpks@.len(),
                names == texts(prefixed_vpks@),
                names.len() > 0,
                d1 == disk@,
                undoable(*old(disk), *disk),
                undoable(*disk, work),
                (d1, Ok::<(), ErrorView>(())) == room_made(
                    old(disk)@,
                    disabled_dir@,
                    enabled_dir@,
                    mod_id@,
                    names,
                ),
                enable_first(d1, disabled_dir@, enabled_dir@, names, i as int) == Ok::<
                    (DiskView, Seq<Seq<char>>),
                    ErrorView,
                >((work@, texts(new_names@))),
            decreases prefixed_vpks@.len() - i,
        {
            assert(names[i as int] == prefixed_vpks@[i as int]@);
            let old_path = disabled_dir.join(prefixed_vpks[i].as_str());
            let failure: Option<Error> = match naming::next_free_number(&work, enabled_dir) {
                Some(n) => {
                    let new_name = naming::enabled_vpk_name(n);
                    let new_path = enabled_dir.child(new_name.as_str());
                    match work.rename(&old_path, &new_path) {
                        Ok(_) => {
                            proof {
                                text::lemma_texts_push(new_names@, new_name);
                            }
                            new_names.push(new_name);
                            None
                        },
                        Err(e) => Some(e),
                    }
                },
                None => Some(staging::no_free_name(enabled_dir)),
            };
            match failure {
                Some(e) => {
                    proof {
                        assert(enable_first(d1, disabled_dir@, enabled_dir@, names, i + 1)
                            == Err::<(DiskView, Seq<Seq<char>>), ErrorView>(e@));
                        lemma_enable_stops(
                            d1,
                            disabled_dir@,
                            enabled_dir@,
                            names,
                            i + 1,
                            names.len() as int,
                        );
                    }
                    return Err(e);
                },
                None => {},
            }
            i = i + 1;
        }
        *disk = work;
        Ok(new_names)
    }

    /// Disables files that have been found.
    fn disable_pairs_in(
        disk: &mut Disk,
        enabled_dir: &TreePath,
        disabled_dir: &TreePath,
        mod_id: &str,
        pairs: &Vec<(String, String)>,
    ) -> (r: Result<Vec<String>, Error>)
        ensures
            undoable(*old(disk), *final(disk)),
            (final(disk)@, texts_result(r)) == pairs_disabled(
                old(disk)@,
                enabled_dir@,
                disabled_dir@,
                mod_id@,
                pair_views(pairs@),
            ),
    {
        let mut out: Vec<String> = Vec::new();
        assert(texts(out@) =~= Seq::<Seq<char>>::empty());
        let ghost all = pair_views(pairs@);
        if pairs.len() == 0 {
            return Ok(out);
        }
        if !enabled_dir.equals(disabled_dir) {
            disk.create_dir_all(disabled_dir)?;
        }
        let mut work = disk.duplicate();
        let ghost d1 = disk@;
        let mut i: usize = 0;
        while i < pairs.len()
            invariant
                i <= pairs@.len(),
                all == pair_views(pairs@),
                all.len() > 0,
                enabled_dir@ != disabled_dir@ ==> dirs_possible(old(disk)@, disabled_dir@) && d1
                    == with_dirs(old(disk)@, disabled_dir@),
                enabled_dir@ == disabled_dir@ ==> d1 == old(disk)@,
                undoable(*old(disk), *disk),
                undoable(*old(disk), work),
                disable_first(d1, enabled_dir@, disabled_dir@, mod_id@, all, i as int) == (
                DisableState {
                    work: work@,
                    kept: disk@,
                    out: Ok::<Seq<Seq<char>>, ErrorView>(texts(out@)),
                }),
            decreases pairs@.len() - i,
        {
            assert(all[i as int] == (pairs@[i as int].0@, pairs@[i as int].1@));
            let old_path = enabled_dir.join(pairs[i].0.as_str());
            let name = prefixed_name(mod_id, pairs[i].1.as_str());
            let new_path = disabled_dir.join(name.as_str());
            let outcome = if work.has(&new_path) {
                let r = work.remove_file(&old_path);
                if r.is_ok() {
                    let _ = disk.remove_file(&old_path);
                }
                r
            } else {
                work.rename(&old_path, &new_path)
            };
            match outcome {
                Ok(_) => {
                    proof {
                        text::lemma_texts_push(out@, name);
                    }
                    out.push(name);
                },
                Err(e) => {
                    proof {
                        assert(disable_first(
                            d1,
                            enabled_dir@,
                            disabled_dir@,
                            mod_id@,
                            all,
                            i + 1,
                        ).out == Err::<Seq<Seq<char>>, ErrorView>(e@));
                        lemma_disable_stops(
                            d1,
                            enabled_dir@,
                            disabled_dir@,
                            mod_id@,
                            all,
                            i + 1,
                            all.len() as int,
                        );
                    }
                    return Err(e);
                },
            }
            i = i + 1;
        }
        *disk = work;
        Ok(out)
    }

    /// Disables a mod: its enabled files in `enabled_dir` go back to
    /// `disabled_dir` under their original names.
    pub fn disable_vpks_in(
        &self,
        disk: &mut Disk,
        enabled_dir: &TreePath,
        disabled_dir: &TreePath,
        mod_id: &str,
        installed_vpks: &Vec<String>,
        original_names: &Vec<String>,
        missing_policy: MissingVpkPolicy,
    ) -> (r: Result<Vec<String>, Error>)
        ensures
            undoable(*old(disk), *final(disk)),
            (final(disk)@, texts_result(r)) == disabled(
                old(disk)@,
                enabled_dir@,
                disabled_dir@,
                mod_id@,
                texts(installed_vpks@),
                texts(original_names@),
                missing_policy,
            ),
    {
        assert(texts(installed_vpks@).len() == installed_vpks@.len());
        assert(texts(original_names@).len() == original_names@.len());
        if installed_vpks.len() == 0 {
            let out: Vec<String> = Vec::new();
            assert(texts(out@) =~= Seq::<Seq<char>>::empty());
            return Ok(out);
        }
        if original_names.len() != installed_vpks.len() {
            let mut m: String =
                "Cannot disable mod because original VPK name count (".to_owned();
            m.append(text::decimal(original_names.len() as u64).as_str());
            m.append(") does not match installed VPK count (");
            m.append(text::decimal(installed_vpks.len() as u64).as_str());
            m.append(")");
            return Err(Error::ModInvalid(m));
        }
        let missing = list_missing(disk, enabled_dir, &vpk_filenames(installed_vpks));
        if missing.len() > 0 && missing_policy == MissingVpkPolicy::Strict {
            let mut m: String =
                "Cannot disable mod because enabled VPK files are missing: ".to_owned();
            m.append(text::join_texts(&missing, ", ").as_str());
            return Err(Error::ModInvalid(m));
        }
        let pairs = list_disable_pairs(
            disk,
            enabled_dir,
            installed_vpks,
            original_names,
            missing_policy,
        );
        VpkManager::disable_pairs_in(disk, enabled_dir, disabled_dir, mod_id, &pairs)
    }
}

} // verus!
