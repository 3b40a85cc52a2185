//! Learning the mods of a profile a second time.
use super::{profile_base, with_repo, ManagerView, RepoView};
use super::gameinfo::migration_needed;
use super::lifecycle::{mods_hydrated, repo_hydrated, unknown_ids};
use super::recording::{lemma_base_of_profile, lemma_save_keeps};
use super::reorder::{
    all_reconciled, any_enabled, ordered_groups, placements_recorded, profile_migrated,
    profile_reordered, repo_placed,
};
use crate::disk::{
    exists_at, is_dir_at, is_file_at, law_changes_keep_the_tree_rooted, rooted, same_at,
    without_tree, BodyView, DiskView, OpView,
};
use crate::error::ErrorView;
use crate::manifest_store::{
    lemma_no_updates, lemma_saved, loaded, manifest_path, manifest_temp_path, nothing_staged,
    saved,
};
use crate::manifest_store::rereading::{
    law_reading_overwrites_nothing, lemma_manifest_outside, lemma_stage_kept, manifest_stays,
};
use crate::path::PathView;
use crate::shard::{base_of, BaseView, REORDER_STAGING_DIR};
use crate::table::{keys_of, lemma_finite_has_order};
use crate::text::starts_with;
use crate::vpk_manager::GroupView;
use crate::vpk_manager::reorder::{reorder_staged, reordered};
use crate::vpk_manager::reordering::lemma_reordered_keeps;
use crate::vpk_manager::staging::RecoveryMode;
use crate::vpk_manager::unclaimed::law_unclaimed_files_move_alone;
use crate::vpk_manifest::{EntryView, ManifestView, MANIFEST_FILENAME};
use vstd::prelude::*;

verus! {

/// Every mod is known under its id.
pub open spec fn known_by_id(repo: RepoView) -> bool {
    forall|id: Seq<char>| #[trigger] repo.contains_key(id) ==> repo[id].id == id
}

proof fn lemma_still_known(repo: RepoView, groups: Seq<GroupView>, k: int)
    requires
        known_by_id(repo),
    ensures
        known_by_id(repo_placed(repo, groups, k)),
        repo_placed(repo, groups, k).dom() == repo.dom(),
    decreases k,
{
    if k > 0 {
        lemma_still_known(repo, groups, k - 1);
        assert(repo_placed(repo, groups, k).dom() =~= repo.dom());
    }
}

pub proof fn lemma_same_mods(m: ManifestView, groups: Seq<GroupView>, k: int)
    ensures
        placements_recorded(m, groups, k).mods.dom() == m.mods.dom(),
        placements_recorded(m, groups, k).version == m.version,
    decreases k,
{
    if k > 0 {
        lemma_same_mods(m, groups, k - 1);
        assert(placements_recorded(m, groups, k).mods.dom() =~= m.mods.dom());
    }
}

/// A manifest stands in the directory `p`, and records just these mods.
spec fn records(d: DiskView, p: PathView, ids: Set<Seq<char>>) -> bool {
    is_file_at(d, manifest_path(p)) && match d[manifest_path(p)].body {
        BodyView::Manifest { manifest, size } => manifest.mods.dom() == ids,
        _ => false,
    }
}

proof fn lemma_read_records(d: DiskView, p: PathView, ids: Set<Seq<char>>)
    requires
        records(d, p, ids),
        loaded(d, p).1 is Ok,
    ensures
        loaded(d, p).1->Ok_0.mods.dom() == ids,
{
    lemma_manifest_outside(p);
}

proof fn lemma_staged(d: DiskView, b: BaseView, groups: Seq<GroupView>)
    requires
        rooted(d),
        d.dom().finite(),
        base_of(b.path, true) == Some(b),
    ensures
        ({
            let (d1, r) = reorder_staged(d, b.path, groups);
            &&& rooted(d1)
            &&& d1.dom().finite()
            &&& exists_at(d, manifest_path(b.path)) ==> same_at(d, d1, manifest_path(b.path))
            &&& r is Ok ==> rooted(r->Ok_0.0) && r->Ok_0.0.dom().finite() && reordered(
                d1,
                b,
                groups,
            ) is Ok
        }),
{
    let p = b.path;
    lemma_stage_kept(d, b, p, REORDER_STAGING_DIR@, RecoveryMode::AvoidEnabledCollisions);
    lemma_manifest_outside(p);
    let (d1, r) = reorder_staged(d, p, groups);
    if r is Ok {
        lemma_reordered_keeps(d1, b, groups);
    }
}

/// Removing the directory of a reordering leaves the manifest.
proof fn lemma_stage_removed(d: DiskView, p: PathView, ids: Set<Seq<char>>)
    requires
        rooted(d),
        d.dom().finite(),
    ensures
        ({
            let stage = p.push(REORDER_STAGING_DIR@);
            let e = if is_dir_at(d, stage) {
                without_tree(d, stage)
            } else {
                d
            };
            rooted(e) && e.dom().finite() && (records(d, p, ids) ==> records(e, p, ids))
        }),
{
    let stage = p.push(REORDER_STAGING_DIR@);
    if is_dir_at(d, stage) {
        law_changes_keep_the_tree_rooted(d, OpView::RemoveTree { path: stage, lenient: true });
        lemma_manifest_outside(p);
        let main = manifest_path(p);
        if stage.is_prefix_of(main) {
            assert(stage =~= main);
            assert(stage[p.len() as int] == REORDER_STAGING_DIR@);
            assert(p =~= main.take(p.len() as int));
        }
    }
}

/// Reordering a profile keeps the mods that its manifest records.
proof fn lemma_reordered(d: DiskView, m: ManagerView, folder: Option<Seq<char>>)
    requires
        rooted(d),
        d.dom().finite(),
        profile_reordered(d, m, folder).2 is Ok,
        known_by_id(m.repo),
    ensures
        ({
            let p = profile_base(m.game_path, folder)->Ok_0.path;
            let e = profile_reordered(d, m, folder).0;
            let ids = loaded(d, p).1->Ok_0.mods.dom();
            let repo = profile_reordered(d, m, folder).1;
            &&& rooted(e)
            &&& e.dom().finite()
            &&& exists_at(d, manifest_path(p)) || exists_at(d, manifest_temp_path(p)) ==> records(
                e,
                p,
                ids,
            )
            &&& known_by_id(repo)
            &&& repo.dom() == m.repo.dom()
        }),
{
    let b = profile_base(m.game_path, folder)->Ok_0;
    let p = b.path;
    lemma_base_of_profile(m, folder, b);
    law_reading_overwrites_nothing(d, p);
    let (dl, l) = loaded(d, p);
    let man = l->Ok_0;
    let ids = man.mods.dom();
    let had = exists_at(d, manifest_path(p)) || exists_at(d, manifest_temp_path(p));
    assert(had ==> records(dl, p, ids));
    let m1 = all_reconciled(dl, b, man);
    assert(m1.mods.dom() =~= ids);
    let groups = ordered_groups(m1);
    let e = profile_reordered(d, m, folder).0;
    if groups.len() == 0 {
        let none = Seq::<GroupView>::empty();
        let d1 = if m1 != man {
            saved(dl, p, m1).0
        } else {
            dl
        };
        if m1 != man {
            lemma_saved(dl, p, m1);
            lemma_save_keeps(dl, p, m1);
        }
        assert(had ==> records(d1, p, ids));
        if any_enabled(d1, b) {
            lemma_staged(d1, b, none);
            let (d2, r) = reorder_staged(d1, p, none);
            let (work, placements) = r->Ok_0;
            law_unclaimed_files_move_alone(d2, b, work, placements);
            let main = manifest_path(p);
            assert(!starts_with(main.last(), "pak"@)) by {
                reveal_strlit("pak");
                reveal_strlit(".dmm.json");
                assert(main.last() == MANIFEST_FILENAME@);
                if starts_with(main.last(), "pak"@) {
                    assert(main.last().take(3)[0] == '.');
                }
            }
            if had {
                assert(same_at(d1, d2, main));
                assert(same_at(d2, work, main));
                assert(records(work, p, ids));
            }
            lemma_stage_removed(work, p, ids);
        }
    } else {
        lemma_staged(dl, b, groups);
        let (d2, r) = reorder_staged(dl, p, groups);
        let (work, placements) = r->Ok_0;
        let m2 = placements_recorded(m1, placements, placements.len() as int);
        lemma_same_mods(m1, placements, placements.len() as int);
        lemma_saved(work, p, m2);
        lemma_save_keeps(work, p, m2);
        assert(records(saved(work, p, m2).0, p, ids));
        lemma_stage_removed(saved(work, p, m2).0, p, ids);
        lemma_still_known(m.repo, placements, placements.len() as int);
    }
}

/// Migrating a profile keeps its tree in order, and the mods known under their ids.
proof fn lemma_migrated(d: DiskView, m: ManagerView, folder: Option<Seq<char>>)
    requires
        rooted(d),
        d.dom().finite(),
        known_by_id(m.repo),
        profile_migrated(d, m, folder).2 is Ok,
    ensures
        rooted(profile_migrated(d, m, folder).0),
        profile_migrated(d, m, folder).0.dom().finite(),
        known_by_id(profile_migrated(d, m, folder).1),
        profile_migrated(d, m, folder).1.dom() == m.repo.dom(),
{
    if migration_needed(d, profile_base(m.game_path, folder)->Ok_0) {
        lemma_reordered(d, m, folder);
    }
}

proof fn lemma_all_known(repo: RepoView, m: ManifestView)
    requires
        m.mods.dom().finite(),
        m.mods.dom().subset_of(repo.dom()),
    ensures
        repo_hydrated(repo, m) == repo,
        unknown_ids(repo, m).len() == 0,
{
    assert(forall|id: Seq<char>| m.mods.contains_key(id) ==> repo.contains_key(id)) by {
        assert forall|id: Seq<char>| m.mods.contains_key(id) implies repo.contains_key(id) by {
            assert(m.mods.dom().contains(id));
            assert(repo.dom().contains(id));
        }
    }
    assert(repo_hydrated(repo, m) =~= repo);
    lemma_finite_has_order::<String, EntryView>(m.mods);
    let keys = keys_of::<String, EntryView>(m.mods);
    let pred = |id: Seq<char>| !repo.contains_key(id);
    assert forall|i: int| 0 <= i < keys.len() implies !pred(keys[i]) by {
        assert(keys.contains(keys[i]));
        assert(m.mods.contains_key(keys[i]));
    }
    keys.lemma_all_neg_filter_empty(pred);
}

/// Where there is no manifest, none turns up and nothing has to be migrated.
pub open spec fn learned_from(d: DiskView, b: BaseView) -> bool {
    &&& manifest_stays(d, b.path)
    &&& exists_at(d, manifest_path(b.path)) || exists_at(d, manifest_temp_path(b.path))
        || !migration_needed(loaded(d, b.path).0, b)
}

/// Learning the mods of a profile a second time finds no unknown one: if it succeeds,
/// none is counted, and the same mods are known. It succeeds and changes nothing where
/// the first time left nothing set aside and no migration to do.
pub proof fn law_mods_are_learned_once(d: DiskView, m: ManagerView, folder: Option<Seq<char>>)
    requires
        rooted(d),
        d.dom().finite(),
        known_by_id(m.repo),
        mods_hydrated(d, m, folder).2 is Ok,
        ({
            let b = profile_base(m.game_path, folder)->Ok_0;
            let d1 = profile_migrated(d, m, folder).0;
            learned_from(d1, b) && loaded(d1, b.path).1->Ok_0.mods.dom().finite()
        }),
    ensures
        ({
            let b = profile_base(m.game_path, folder)->Ok_0;
            let (d2, repo, _) = mods_hydrated(d, m, folder);
            let (d3, repo3, r) = mods_hydrated(d2, with_repo(m, repo), folder);
            &&& r is Ok ==> r == Ok::<nat, ErrorView>(0) && repo3.dom() == repo.dom()
            &&& !migration_needed(d2, b) && nothing_staged(d2, b.path) && !exists_at(
                d2,
                manifest_temp_path(b.path),
            ) ==> r == Ok::<nat, ErrorView>(0) && repo3 == repo && d3 == d2
        }),
{
    let b = profile_base(m.game_path, folder)->Ok_0;
    let p = b.path;
    lemma_base_of_profile(m, folder, b);
    let (d1, repo0, _) = profile_migrated(d, m, folder);
    lemma_migrated(d, m, folder);
    let manifest = loaded(d1, p).1->Ok_0;
    let ids = manifest.mods.dom();
    let (d2, repo, _) = mods_hydrated(d, m, folder);
    law_reading_overwrites_nothing(d1, p);
    assert(known_by_id(repo));
    assert(ids.subset_of(repo.dom()));
    let later = with_repo(m, repo);
    let had = exists_at(d1, manifest_path(p)) || exists_at(d1, manifest_temp_path(p));
    if had {
        assert(records(d2, p, ids));
    }
    let (d3, repo3, r) = mods_hydrated(d2, later, folder);
    let (dm, repom, rm) = profile_migrated(d2, later, folder);
    if rm is Ok && loaded(dm, p).1 is Ok {
        lemma_migrated(d2, later, folder);
        let again = loaded(dm, p).1->Ok_0;
        if had {
            if migration_needed(d2, b) {
                assert(loaded(d2, p).1 is Ok);
                lemma_read_records(d2, p, ids);
                lemma_reordered(d2, later, folder);
            }
            lemma_read_records(dm, p, ids);
        } else {
            lemma_manifest_outside(p);
            assert(again == manifest);
        }
        assert(again.mods.dom() == ids);
        lemma_all_known(repom, again);
    }
    if !migration_needed(d2, b) && nothing_staged(d2, p) && !exists_at(d2, manifest_temp_path(p)) {
        if is_dir_at(d2, p) {
            let names = crate::disk::names_in(d2, p);
            lemma_no_updates(d2, base_of(p, false)->0, p, manifest, names, names.len() as int);
        }
        assert(loaded(d2, p) == (d2, Ok::<ManifestView, ErrorView>(manifest)));
    }
}

} // verus!
