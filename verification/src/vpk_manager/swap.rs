//! Changing the variant of an enabled mod, and clearing a profile of its VPKs.
use super::{copying, operations, staging, MissingVpkPolicy, SwapRequest, SwapView, VpkManager};
use super::copying::not_found_text;
use super::operations::{disabled, enabled, prefixed, prefixed_found};
use super::reorder::pruned_shards;
use super::staging::{claimed, run_plan, staging_plan, PendingVpkOperation};
use crate::{path, text};
use crate::disk::{cannot_text, exists_at, is_dir_at, is_file_at, names_in, Disk, DiskView};
use crate::error::{Error, ErrorView};
use crate::journal::{group_journal, undoable};
use crate::path::{base_name, path_join, vpk_name, PathView, TreePath};
use crate::shard::{
    bad_base_text, base_of, shard_dir_of, BaseView, ProfileBase, CLEAR_STAGING_DIR, MAX_SHARDS,
};
use crate::text::texts;
use crate::vpk_manifest::path_views;
use vstd::prelude::*;
use vstd::string::*;

verus! {

broadcast use group_journal;

// ---------------------------------------------------------------------------
// Swapping
// ---------------------------------------------------------------------------

/// Every enabled file of the current variant is there.
pub open spec fn current_present(d: DiskView, s: SwapView) -> bool {
    forall|i: int|
        0 <= i < s.installed.len() ==> is_file_at(
            d,
            path_join(shard_dir_of(s.base, s.current_shard), base_name(#[trigger] s.installed[i])),
        )
}

/// The disabled names of the selected files.
pub open spec fn selected_names(s: SwapView) -> Seq<Seq<char>> {
    s.selected.map_values(|n: Seq<char>| prefixed(s.mod_id, n))
}

/// Every name of a list stands in a directory.
pub open spec fn all_present(d: DiskView, dir: PathView, names: Seq<Seq<char>>) -> bool {
    forall|i: int|
        0 <= i < names.len() ==> exists_at(d, path_join(dir, #[trigger] names[i]))
}

/// Disabling the current variant, where there is one.
pub open spec fn current_disabled(d: DiskView, s: SwapView) -> Result<DiskView, ErrorView> {
    if s.installed.len() == 0 {
        Ok(d)
    } else {
        let (d1, r) = disabled(
            d,
            shard_dir_of(s.base, s.current_shard),
            s.base.path,
            s.mod_id,
            s.installed,
            s.original,
            MissingVpkPolicy::Strict,
        );
        match r {
            Ok(_) => Ok(d1),
            Err(e) => Err(e),
        }
    }
}

/// Changing the variant of a mod: the current files are disabled and the selected
/// ones enabled. A failure changes nothing.
pub open spec fn swapped(d: DiskView, s: SwapView) -> Result<
    (DiskView, Seq<Seq<char>>),
    ErrorView,
> {
    if !exists_at(d, s.base.path) {
        Err(ErrorView::Io(not_found_text(s.base.path)))
    } else if !s.selected.no_duplicates() {
        Err(ErrorView::InvalidInput("Selected VPK filenames must be unique"@))
    } else if !current_present(d, s) {
        Err(ErrorView::ModFileNotFound)
    } else {
        match prefixed_found(d, s.base.path, s.mod_id) {
            Err(e) => Err(e),
            Ok(_) => match current_disabled(d, s) {
                Err(e) => Err(e),
                Ok(d1) => if !all_present(d1, s.base.path, selected_names(s)) {
                    Err(ErrorView::ModFileNotFound)
                } else {
                    let (d2, r) = enabled(
                        d1,
                        s.base.path,
                        shard_dir_of(s.base, s.target_shard),
                        s.mod_id,
                        selected_names(s),
                    );
                    match r {
                        Err(e) => Err(e),
                        Ok(names) => Ok((d2, names)),
                    }
                },
            },
        }
    }
}

fn texts_unique(v: &Vec<String>) -> (r: bool)
    ensures
        r == texts(v@).no_duplicates(),
{
    let ghost tv = texts(v@);
    let mut i: usize = 0;
    while i < v.len()
        invariant
            i <= v@.len(),
            tv == texts(v@),
            forall|a: int, b: int| 0 <= a < b < i ==> tv[a] != tv[b],
        decreases v@.len() - i,
    {
        let mut j: usize = 0;
        while j < i
            invariant
                j <= i < v@.len(),
                tv == texts(v@),
                forall|a: int| 0 <= a < j ==> tv[a] != tv[i as int],
            decreases i - j,
        {
            assert(tv[i as int] == v@[i as int]@);
            assert(tv[j as int] == v@[j as int]@);
            if v[j] == v[i] {
                return false;
            }
            j = j + 1;
        }
        i = i + 1;
    }
    true
}

impl VpkManager {
    fn current_files_present(disk: &Disk, request: &SwapRequest) -> (r: bool)
        ensures
            r == current_present(disk@, request@),
    {
        let dir = request.base.shard_dir(request.current_shard);
        let ghost iv = request@.installed;
        let mut i: usize = 0;
        while i < request.current_installed_vpks.len()
            invariant
                i <= request.current_installed_vpks@.len(),
                iv == request@.installed,
                dir@ == shard_dir_of(request@.base, request@.current_shard),
                forall|j: int|
                    0 <= j < i ==> is_file_at(disk@, path_join(dir@, base_name(#[trigger] iv[j]))),
            decreases request.current_installed_vpks@.len() - i,
        {
            assert(iv[i as int] == request.current_installed_vpks@[i as int]@);
            let name = path::base_name_of(request.current_installed_vpks[i].as_str());
            if !disk.is_file(&dir.join(name.as_str())) {
                return false;
            }
            i = i + 1;
        }
        true
    }

    fn selected_disabled_names(request: &SwapRequest) -> (r: Vec<String>)
        ensures
            texts(r@) == selected_names(request@),
    {
        let mut r: Vec<String> = Vec::new();
        let mut i: usize = 0;
        while i < request.selected_original_names.len()
            invariant
                i <= request.selected_original_names@.len(),
                r@.len() == i,
                forall|j: int|
                    0 <= j < i ==> (#[trigger] r@[j])@ == prefixed(
                        request@.mod_id,
                        request.selected_original_names@[j]@,
                    ),
            decreases request.selected_original_names@.len() - i,
        {
            r.push(
                operations::prefixed_name(
                    request.mod_id,
                    request.selected_original_names[i].as_str(),
                ),
            );
            i = i + 1;
        }
        assert(texts(r@) =~= selected_names(request@));
        r
    }

    fn names_present(disk: &Disk, dir: &TreePath, names: &Vec<String>) -> (r: bool)
        ensures
            r == all_present(disk@, dir@, texts(names@)),
    {
        let ghost nv = texts(names@);
        let mut i: usize = 0;
        while i < names.len()
            invariant
                i <= names@.len(),
                nv == texts(names@),
                forall|j: int| 0 <= j < i ==> exists_at(disk@, path_join(dir@, #[trigger] nv[j])),
            decreases names@.len() - i,
        {
            assert(nv[i as int] == names@[i as int]@);
            if !disk.has(&dir.join(names[i].as_str())) {
                return false;
            }
            i = i + 1;
        }
        true
    }

    /// Prepares the change of a mod's variant.
    pub fn stage_enabled_vpk_swap(&self, disk: &Disk, request: &SwapRequest) -> (r: Result<
        PendingVpkOperation<Vec<String>>,
        Error,
    >)
        ensures
            match r {
                Ok(p) => swapped(disk@, request@) == Ok::<(DiskView, Seq<Seq<char>>), ErrorView>(
                    (p.work@, texts(p.value@)),
                ) && undoable(*disk, p.work) && p.staging is None,
                Err(e) => swapped(disk@, request@) == Err::<(DiskView, Seq<Seq<char>>), ErrorView>(
                    e@,
                ),
            },
    {
        if !disk.has(request.base.path()) {
            return Err(copying::addons_not_found(request.base.path()));
        }
        if !texts_unique(request.selected_original_names) {
            return Err(Error::InvalidInput("Selected VPK filenames must be unique".to_owned()));
        }
        if !VpkManager::current_files_present(disk, request) {
            return Err(Error::ModFileNotFound);
        }
        self.find_prefixed_vpks(disk, request.base.path(), request.mod_id)?;
        let mut work = disk.duplicate();
        assert(request@.installed.len() == request.current_installed_vpks@.len());
        if request.current_installed_vpks.len() > 0 {
            self.disable_vpks_in(
                &mut work,
                &request.base.shard_dir(request.current_shard),
                request.base.path(),
                request.mod_id,
                request.current_installed_vpks,
                request.current_original_names,
                MissingVpkPolicy::Strict,
            )?;
        }
        let selected = VpkManager::selected_disabled_names(request);
        if !VpkManager::names_present(&work, request.base.path(), &selected) {
            return Err(Error::ModFileNotFound);
        }
        let installed = self.enable_vpks_in(
            &mut work,
            request.base.path(),
            &request.base.shard_dir(request.target_shard),
            request.mod_id,
            &selected,
        )?;
        Ok(PendingVpkOperation { value: installed, work, staging: None })
    }
}

// ---------------------------------------------------------------------------
// Clearing
// ---------------------------------------------------------------------------

/// The VPK files of a directory, by name.
pub open spec fn vpk_names_in(d: DiskView, dir: PathView) -> Seq<Seq<char>> {
    names_in(d, dir).filter(|n: Seq<char>| is_file_at(d, dir.push(n)) && vpk_name(n))
}

/// The VPK files of shards 1 to `n`, enabled and disabled.
pub open spec fn vpks_to(d: DiskView, b: BaseView, n: nat) -> Result<Seq<PathView>, ErrorView>
    decreases n,
{
    if n == 0 {
        Ok(Seq::empty())
    } else {
        let dir = shard_dir_of(b, n);
        match vpks_to(d, b, (n - 1) as nat) {
            Err(e) => Err(e),
            Ok(list) => if !exists_at(d, dir) {
                Ok(list)
            } else if !is_dir_at(d, dir) {
                Err(ErrorView::Io(cannot_text("list"@, dir)))
            } else {
                Ok(
                    list + vpk_names_in(d, dir).map_values(|name: Seq<char>| dir.push(name)),
                )
            },
        }
    }
}

/// Setting every VPK of a profile aside.
pub open spec fn cleared(d: DiskView, p: PathView) -> Result<DiskView, ErrorView> {
    match base_of(p, true) {
        None => Err(ErrorView::InvalidInput(bad_base_text(p))),
        Some(b) => {
            let stage = p.push(CLEAR_STAGING_DIR@);
            match vpks_to(d, b, MAX_SHARDS as nat) {
                Err(e) => Err(e),
                Ok(sources) => match claimed(d, stage) {
                    Err(e) => Err(e),
                    Ok(d1) => match staging_plan(b, stage, sources, sources.len() as int) {
                        Err(e) => Err(e),
                        Ok(steps) => match run_plan(d1, steps) {
                            Err(e) => Err(e),
                            Ok(d2) => Ok(pruned_shards(d2, b)),
                        },
                    },
                },
            }
        },
    }
}

proof fn lemma_vpks_stop(d: DiskView, b: BaseView, k: nat, n: nat)
    requires
        k <= n,
        vpks_to(d, b, k) is Err,
    ensures
        vpks_to(d, b, n) == vpks_to(d, b, k),
    decreases n - k,
{
    if k < n {
        lemma_vpks_stop(d, b, k, (n - 1) as nat);
    }
}

/// The VPK files of a directory, by name.
pub fn list_vpk_names(disk: &Disk, dir: &TreePath) -> (r: Vec<String>)
    ensures
        texts(r@) == vpk_names_in(disk@, dir@),
{
    let names = disk.names(dir);
    let ghost all = names_in(disk@, dir@);
    let ghost pred = |n: Seq<char>| is_file_at(disk@, dir@.push(n)) && vpk_name(n);
    let mut r: Vec<String> = Vec::new();
    let mut i: usize = 0;
    proof {
        reveal(Seq::filter);
        assert(all.take(0).filter(pred) =~= Seq::<Seq<char>>::empty());
        assert(texts(r@) =~= Seq::<Seq<char>>::empty());
    }
    while i < names.len()
        invariant
            i <= names@.len(),
            texts(names@) == all,
            pred == (|n: Seq<char>| is_file_at(disk@, dir@.push(n)) && vpk_name(n)),
            texts(r@) == all.take(i as int).filter(pred),
        decreases names@.len() - i,
    {
        proof {
            assert(all[i as int] == names@[i as int]@);
            assert(all.take(i + 1) =~= all.take(i as int).push(all[i as int]));
            crate::disk::lemma_filter_push(all.take(i as int), all[i as int], pred);
        }
        if path::is_vpk_name(names[i].as_str()) && disk.is_file(&dir.child(names[i].as_str())) {
            let s = names[i].clone();
            proof {
                text::lemma_texts_push(r@, s);
            }
            r.push(s);
        }
        i = i + 1;
    }
    assert(all.take(all.len() as int) =~= all);
    r
}

fn list_profile_vpks(disk: &Disk, base: &ProfileBase) -> (r: Result<Vec<TreePath>, Error>)
    ensures
        match r {
            Ok(v) => vpks_to(disk@, base@, MAX_SHARDS as nat) == Ok::<Seq<PathView>, ErrorView>(
                path_views(v@),
            ),
            Err(e) => vpks_to(disk@, base@, MAX_SHARDS as nat) == Err::<Seq<PathView>, ErrorView>(
                e@,
            ),
        },
{
    let shards = base.shards();
    let mut r: Vec<TreePath> = Vec::new();
    let mut i: usize = 0;
    assert(path_views(r@) =~= Seq::<PathView>::empty());
    while i < shards.len()
        invariant
            i <= shards@.len() == MAX_SHARDS,
            forall|j: int|
                0 <= j < MAX_SHARDS ==> (#[trigger] shards@[j]).1@ == shard_dir_of(
                    base@,
                    (j + 1) as nat,
                ),
            vpks_to(disk@, base@, i as nat) == Ok::<Seq<PathView>, ErrorView>(path_views(r@)),
        decreases shards@.len() - i,
    {
        let dir = &shards[i].1;
        assert(dir@ == shard_dir_of(base@, (i + 1) as nat));
        if disk.has(dir) {
            if !disk.is_dir(dir) {
                let e = staging::cannot_list(dir);
                proof {
                    assert(vpks_to(disk@, base@, (i + 1) as nat) is Err);
                    lemma_vpks_stop(disk@, base@, (i + 1) as nat, MAX_SHARDS as nat);
                }
                return Err(e);
            }
            let names = list_vpk_names(disk, dir);
            let ghost before = path_views(r@);
            let ghost more = vpk_names_in(disk@, dir@).map_values(
                |name: Seq<char>| dir@.push(name),
            );
            let mut k: usize = 0;
            assert(path_views(r@) =~= before + more.take(0));
            while k < names.len()
                invariant
                    k <= names@.len(),
                    texts(names@) == vpk_names_in(disk@, dir@),
                    more == vpk_names_in(disk@, dir@).map_values(
                        |name: Seq<char>| dir@.push(name),
                    ),
                    path_views(r@) == before + more.take(k as int),
                decreases names@.len() - k,
            {
                let q = dir.child(names[k].as_str());
                proof {
                    assert(texts(names@)[k as int] == names@[k as int]@);
                    assert(more[k as int] == q@);
                    assert(more.take(k + 1) =~= more.take(k as int).push(q@));
                    assert(path_views(r@.push(q)) =~= path_views(r@).push(q@));
                    assert(before + more.take(k + 1) =~= (before + more.take(k as int)).push(q@));
                }
                r.push(q);
                k = k + 1;
            }
            assert(more.take(more.len() as int) =~= more);
        }
        i = i + 1;
    }
    Ok(r)
}

impl VpkManager {
    /// Prepares the removal of every VPK of a profile.
    pub fn stage_clear_all_vpks(&self, disk: &Disk, addons_path: &TreePath) -> (r: Result<
        PendingVpkOperation<()>,
        Error,
    >)
        ensures
            match r {
                Ok(p) => cleared(disk@, addons_path@) == Ok::<DiskView, ErrorView>(p.work@)
                    && undoable(*disk, p.work) && p.staging is Some && p.staging->0@
                    == addons_path@.push(CLEAR_STAGING_DIR@),
                Err(e) => cleared(disk@, addons_path@) == Err::<DiskView, ErrorView>(e@),
            },
    {
        let base = ProfileBase::new(addons_path)?;
        let stage = addons_path.child(CLEAR_STAGING_DIR);
        let sources = list_profile_vpks(disk, &base)?;
        assert(path_views(sources@).len() == sources@.len());
        let mut work = disk.duplicate();
        staging::claim(&mut work, &stage)?;
        let steps = staging::plan_staging(&base, &stage, &sources)?;
        staging::carry_out(&mut work, &steps)?;
        VpkManager::prune_empty_shard_dirs(&mut work, &base);
        Ok(PendingVpkOperation { value: (), work, staging: Some(stage) })
    }
}

} // verus!
