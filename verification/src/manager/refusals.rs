//! What a refused or failed operation on mods leaves alone.
use super::{profile_base, ManagerView, ModView, RepoView};
use super::lifecycle::{mod_installed, vpks_removed};
use super::reorder::reorder_committed;
use crate::disk::{exists_at, DiskView};
use crate::manifest_store::loaded;
use crate::path::PathView;
use crate::shard::REORDER_STAGING_DIR;
use crate::vpk_manager::GroupView;
use crate::vpk_manifest::ManifestView;
use vstd::prelude::*;

verus! {

/// Unless moving the files and recording where they went both succeed, every file
/// is where it was, and so is what is known of the mods.
pub proof fn law_failed_reordering_is_taken_back(
    d: DiskView,
    p: PathView,
    repo: RepoView,
    m: ManifestView,
    groups: Seq<GroupView>,
)
    requires
        !exists_at(d, p.push(REORDER_STAGING_DIR@)),
        reorder_committed(d, p, repo, m, groups).2 is Err,
    ensures
        reorder_committed(d, p, repo, m, groups).0 == d,
        reorder_committed(d, p, repo, m, groups).1 == repo,
{
}

/// Removing the files of a mod that fails, be it only because the manifest cannot
/// be written, leaves every file where it was. Only what an interrupted operation
/// left behind is cleared up, as reading the manifest does.
pub proof fn law_failed_removal_is_taken_back(
    d: DiskView,
    m: ManagerView,
    id: Seq<char>,
    given: Seq<Seq<char>>,
    folder: Option<Seq<char>>,
)
    requires
        vpks_removed(d, m, id, given, folder).2 is Err,
    ensures
        vpks_removed(d, m, id, given, folder).1 == m.repo,
        vpks_removed(d, m, id, given, folder).0 == d || (profile_base(m.game_path, folder) is Ok
            && vpks_removed(d, m, id, given, folder).0 == loaded(
            d,
            profile_base(m.game_path, folder)->Ok_0.path,
        ).0),
{
}

/// Whether a mod can be installed does not depend on the place it is to have: once
/// its files are enabled and recorded it is installed, even where the mods cannot
/// be reordered.
pub proof fn law_a_failed_reordering_keeps_the_mod(
    d: DiskView,
    m: ManagerView,
    x: ModView,
    folder: Option<Seq<char>>,
)
    ensures
        mod_installed(d, m, x, folder).2 is Ok <==> mod_installed(
            d,
            m,
            ModView { install_order: None, ..x },
            folder,
        ).2 is Ok,
{
}

} // verus!
