//! What removing a mod takes, and what it leaves.
use super::{profile_base, ManagerView, RepoView};
use super::lifecycle::{
    fallback_names, mod_candidates, mod_purged, mod_sources, sources_removed, vpks_removed,
};
use super::places::{law_no_empty_shard_is_left, no_empty_shard};
use super::recording::lemma_base_of_profile;
use super::requested_order::lemma_still_on_record;
use crate::disk::{
    exists_at, is_below, is_dir_at, is_file_at, lemma_below_exists, lemma_filter_members,
    lemma_names_in, lemma_rooted_at, lemma_with_dirs, names_in, rooted, same_at, without_tree,
    DiskView, NodeView,
};
use crate::error::ErrorView;
use crate::manifest_store::{
    lemma_saved, loaded, manifest_path, manifest_temp_path, mods_on_record, saved,
};
use crate::manifest_store::rereading::{
    internal, law_reading_overwrites_nothing, lemma_manifest_outside,
};
use crate::order::law_sorting_keeps_every_value;
use crate::path::{lemma_join_plain, path_join, plain_name, vpk_name, PathView, TreePath};
use crate::shard::{
    base_ok, legacy_locator_of, shard_dir_of, BaseView, MAX_SHARDS, UPDATE_STAGING_PREFIX,
};
use crate::table::lemma_finite_has_order;
use crate::text::starts_with;
use crate::vpk_manager::moves::{lemma_shifted, shifted};
use crate::vpk_manager::operations::{prefixed_found, prefixed_in};
use crate::vpk_manager::reorder::{lemma_staging_plan_shape, pruned_shards};
use crate::vpk_manager::setting_aside::{
    asides, lemma_aside_runs, lemma_asides, lemma_claimed, lemma_locator, lemma_pruned_files,
    lemma_shard_dir, locator_of, plain_tree, shard_file,
};
use crate::vpk_manager::staging::{claimed, run_plan, stage_target_of, staging_plan};
use crate::vpk_manifest::{entry_paths, without_mod, EntryView, ManifestView};
use vstd::prelude::*;

verus! {

/// Where a name stands that the caller or the manager gives for a file of a mod.
pub open spec fn known_place(b: BaseView, name: Seq<char>) -> PathView {
    path_join(
        shard_dir_of(b, legacy_locator_of(name).shard),
        legacy_locator_of(name).filename,
    )
}

/// A place of a file of the mod `id`: in the base under its disabled name, where the
/// manifest records it, or where the caller or the manager takes it to be.
pub open spec fn belongs_to(
    b: BaseView,
    before: Map<Seq<char>, EntryView>,
    repo: RepoView,
    id: Seq<char>,
    given: Seq<Seq<char>>,
    q: PathView,
) -> bool {
    ||| q.len() > 0 && q.drop_last() == b.path && vpk_name(q.last()) && starts_with(
        q.last(),
        id + "_"@,
    )
    ||| before.contains_key(id) && before[id].enabled && exists|i: int|
        0 <= i < before[id].current.len() && q == path_join(
            shard_dir_of(b, before[id].shard),
            #[trigger] before[id].current[i],
        )
    ||| before.contains_key(id) && !before[id].enabled && exists|i: int|
        0 <= i < before[id].disabled.len() && q == path_join(
            b.path,
            #[trigger] before[id].disabled[i],
        )
    ||| exists|i: int| 0 <= i < given.len() && q == known_place(b, #[trigger] given[i])
    ||| repo.contains_key(id) && exists|i: int|
        0 <= i < repo[id].installed.len() && q == known_place(b, #[trigger] repo[id].installed[i])
}

/// The files that are removed are those that belong to the mod.
proof fn lemma_sources(
    d: DiskView,
    b: BaseView,
    m: ManifestView,
    repo: RepoView,
    id: Seq<char>,
    given: Seq<Seq<char>>,
)
    requires
        rooted(d),
        d.dom().finite(),
        plain_tree(d),
        base_ok(b),
        prefixed_found(d, b.path, id) is Ok,
    ensures
        ({
            let found = prefixed_found(d, b.path, id)->Ok_0;
            let sources = mod_sources(
                d,
                mod_candidates(b, m, id, found, fallback_names(repo, id, given)),
            );
            &&& sources.no_duplicates()
            &&& forall|q: PathView|
                #[trigger] sources.contains(q) <==> is_file_at(d, q) && belongs_to(
                    b,
                    m.mods,
                    repo,
                    id,
                    given,
                    q,
                )
        }),
{
    let found = prefixed_found(d, b.path, id)->Ok_0;
    let fallback = fallback_names(repo, id, given);
    let all = mod_candidates(b, m, id, found, fallback);
    let pred = |p: PathView| is_file_at(d, p);
    lemma_filter_members(all, pred);
    law_sorting_keeps_every_value::<TreePath>(all.filter(pred));
    let sources = mod_sources(d, all);
    assert forall|q: PathView| is_file_at(d, q) implies (#[trigger] all.contains(q)
        <==> belongs_to(b, m.mods, repo, id, given, q)) by {
        lemma_candidate(d, b, m, repo, id, given, q);
    }
    assert forall|q: PathView| #[trigger] sources.contains(q) <==> is_file_at(d, q) && belongs_to(
        b,
        m.mods,
        repo,
        id,
        given,
        q,
    ) by {
        assert(sources.contains(q) <==> all.filter(pred).contains(q));
        if is_file_at(d, q) {
            assert(all.contains(q) <==> belongs_to(b, m.mods, repo, id, given, q));
        }
    }
}

proof fn lemma_candidate(
    d: DiskView,
    b: BaseView,
    m: ManifestView,
    repo: RepoView,
    id: Seq<char>,
    given: Seq<Seq<char>>,
    q: PathView,
)
    requires
        rooted(d),
        d.dom().finite(),
        prefixed_found(d, b.path, id) is Ok,
        is_file_at(d, q),
        plain_tree(d),
        base_ok(b),
    ensures
        mod_candidates(
            b,
            m,
            id,
            prefixed_found(d, b.path, id)->Ok_0,
            fallback_names(repo, id, given),
        ).contains(q) <==> belongs_to(b, m.mods, repo, id, given, q),
{
    let found = prefixed_found(d, b.path, id)->Ok_0;
    let fallback = fallback_names(repo, id, given);
    let all = mod_candidates(b, m, id, found, fallback);
    let recorded = if m.mods.contains_key(id) {
        entry_paths(m.mods[id], b)
    } else {
        Seq::empty()
    };
    let second = found.map_values(|n: Seq<char>| path_join(b.path, n));
    let third = fallback.map_values(|n: Seq<char>| known_place(b, n));
    assert(all =~= recorded + second + third);
    lemma_finite_has_order::<TreePath, NodeView>(d);
    lemma_names_in(d, b.path);
    lemma_filter_members(names_in(d, b.path), |n: Seq<char>| prefixed_in(d, b.path, id, n));
    if all.contains(q) {
        let i = choose|i: int| 0 <= i < all.len() && all[i] == q;
        let r = recorded.len() as int;
        let s = second.len() as int;
        if i < r {
            assert(recorded[i] == q);
        } else if i < r + s {
            let n = found[i - r];
            assert(second[i - r] == q);
            assert(found.contains(n));
            assert(d.contains_key(b.path.push(n)));
            assert(plain_name(b.path.push(n).last()));
            lemma_join_plain(b.path, n);
            assert(q.drop_last() =~= b.path);
        } else {
            let k = i - r - s;
            assert(third[k] == q);
            if k < given.len() {
                assert(q == known_place(b, given[k]));
            } else {
                assert(q == known_place(b, repo[id].installed[k - given.len()]));
            }
        }
    }
    if belongs_to(b, m.mods, repo, id, given, q) {
        let r = recorded.len() as int;
        let s = second.len() as int;
        if q.len() > 0 && q.drop_last() == b.path && vpk_name(q.last()) && starts_with(
            q.last(),
            id + "_"@,
        ) {
            let n = q.last();
            assert(q =~= b.path.push(n));
            lemma_rooted_at(d, q);
            lemma_shard_dir(b, 1);
            assert(is_dir_at(d, b.path));
            assert(plain_name(q.last()));
            lemma_join_plain(b.path, n);
            assert(names_in(d, b.path).contains(n));
            assert(found.contains(n));
            let i = choose|i: int| 0 <= i < found.len() && found[i] == n;
            assert(all[r + i] == q);
        } else if m.mods.contains_key(id) && m.mods[id].enabled && exists|i: int|
            0 <= i < m.mods[id].current.len() && q == path_join(
                shard_dir_of(b, m.mods[id].shard),
                #[trigger] m.mods[id].current[i],
            ) {
            let i = choose|i: int|
                0 <= i < m.mods[id].current.len() && q == path_join(
                    shard_dir_of(b, m.mods[id].shard),
                    #[trigger] m.mods[id].current[i],
                );
            assert(all[i] == q);
        } else if m.mods.contains_key(id) && !m.mods[id].enabled && exists|i: int|
            0 <= i < m.mods[id].disabled.len() && q == path_join(
                b.path,
                #[trigger] m.mods[id].disabled[i],
            ) {
            let i = choose|i: int|
                0 <= i < m.mods[id].disabled.len() && q == path_join(
                    b.path,
                    #[trigger] m.mods[id].disabled[i],
                );
            assert(all[i] == q);
        } else if exists|i: int| 0 <= i < given.len() && q == known_place(b, #[trigger] given[i]) {
            let i = choose|i: int| 0 <= i < given.len() && q == known_place(b, #[trigger] given[i]);
            assert(third[i] == q);
            assert(all[r + s + i] == q);
        } else {
            let i = choose|i: int|
                0 <= i < repo[id].installed.len() && q == known_place(
                    b,
                    #[trigger] repo[id].installed[i],
                );
            assert(third[given.len() + i] == q);
            assert(all[r + s + given.len() + i] == q);
        }
    }
}

/// Files that are removed are gone, every other file is as it was, and the manifest no
/// longer records the mod, but all the others as before.
proof fn lemma_sources_removed(
    d: DiskView,
    b: BaseView,
    m: ManifestView,
    id: Seq<char>,
    sources: Seq<PathView>,
    e: DiskView,
)
    requires
        rooted(d),
        d.dom().finite(),
        plain_tree(d),
        base_ok(b),
        sources.no_duplicates(),
        forall|i: int| 0 <= i < sources.len() ==> is_file_at(d, #[trigger] sources[i]),
        sources_removed(d, b, m, id, sources) == Ok::<DiskView, ErrorView>(e),
    ensures
        forall|q: PathView|
            sources.contains(q) && q != manifest_path(b.path) ==> !#[trigger] e.contains_key(q),
        forall|q: PathView|
            is_file_at(d, q) && !sources.contains(q) && q != manifest_path(b.path) && q
                != manifest_temp_path(b.path) ==> #[trigger] same_at(d, e, q),
        forall|q: PathView|
            #[trigger] is_file_at(e, q) ==> is_file_at(d, q) || q == manifest_path(b.path),
        mods_on_record(e, b.path) == m.mods.remove(id),
{
    let p = b.path;
    let n = sources.len() as int;
    let name = UPDATE_STAGING_PREFIX@ + id;
    let stage = p.push(name);
    let main = manifest_path(p);
    let temp = manifest_temp_path(p);
    let d1 = claimed(d, stage)->Ok_0;
    let steps = staging_plan(b, stage, sources, n)->Ok_0;
    lemma_staging_plan_shape(b, stage, sources, n);
    assert forall|i: int| 0 <= i < n implies shard_file(d, b, #[trigger] sources[i]) by {
        assert(is_file_at(d, sources[i]));
        assert(steps[i] is Rename);
        assert(plain_name(sources[i].last()));
        assert(stage_target_of(b, stage, sources[i]) is Ok);
    }
    lemma_shard_dir(b, 1);
    lemma_claimed(d, b, stage, sources);
    lemma_aside_runs(d1, b, stage, sources, steps, n);
    lemma_asides(d1, b, stage, sources);
    let to = asides(b, stage, sources);
    lemma_shifted(d1, sources, to, n);
    let d2 = shifted(d1, sources, to, n);
    let m1 = without_mod(m, id);
    lemma_saved(d2, p, m1);
    lemma_with_dirs(d2, p);
    let d3 = saved(d2, p, m1).0;
    let d4 = if is_dir_at(d3, stage) {
        without_tree(d3, stage)
    } else {
        d3
    };
    lemma_pruned_files(d4, b, MAX_SHARDS as nat);
    lemma_manifest_outside(p);
    assert(internal(name)) by {
        assert(name.take(UPDATE_STAGING_PREFIX@.len() as int) =~= UPDATE_STAGING_PREFIX@);
    }
    assert(stage[p.len() as int] == name);
    assert(!stage.is_prefix_of(main)) by {
        if stage.is_prefix_of(main) {
            assert(stage =~= main);
        }
    }
    assert(d4.contains_key(main) && d4[main] == d3[main]);
    assert(is_file_at(d4, main));
    assert(same_at(d4, e, main));
    assert(mods_on_record(e, p) =~= m.mods.remove(id));
    assert forall|q: PathView| #[trigger] is_file_at(e, q) implies is_file_at(d, q) || q == main by {
        assert(same_at(d4, e, q));
        if q != main {
            assert(d3.contains_key(q));
            assert(d2.contains_key(q) && d2[q] == d3[q]);
            if to.contains(q) {
                let i = choose|i: int| 0 <= i < n && to[i] == q;
                assert(is_below(stage, to[i]));
                assert(same_at(d1, d2, stage)) by {
                    assert forall|j: int| 0 <= j < n implies #[trigger] sources[j] != stage by {
                        assert(shard_file(d, b, sources[j]));
                    }
                }
                assert(is_dir_at(d3, stage));
            } else {
                assert forall|i: int| 0 <= i < n implies #[trigger] to[i] != q by {
                    assert(to.contains(to[i]));
                }
                assert forall|i: int| 0 <= i < n implies #[trigger] sources[i] != q by {}
                assert(same_at(d1, d2, q));
                assert(same_at(d, d1, q));
            }
        }
    }
    assert forall|q: PathView| sources.contains(q) && q != main implies !#[trigger] e.contains_key(
        q,
    ) by {
        let i = choose|i: int| 0 <= i < n && sources[i] == q;
        assert(shard_file(d, b, sources[i]));
        assert(!d2.contains_key(q));
        if e.contains_key(q) {
            assert(same_at(d4, e, q));
            assert(d3.contains_key(q));
            assert(!is_file_at(d2, q));
            lemma_locator(d, b, q);
            lemma_shard_dir(b, locator_of(b, q).shard);
            assert(q.len() == p.len() + 1);
        }
    }
    assert forall|q: PathView|
        is_file_at(d, q) && !sources.contains(q) && q != main && q != temp implies
        #[trigger] same_at(d, e, q) by {
        assert(same_at(d, d1, q));
        assert forall|i: int| 0 <= i < n implies #[trigger] sources[i] != q by {
            assert(sources.contains(sources[i]));
        }
        assert forall|i: int| 0 <= i < n implies #[trigger] to[i] != q by {
            assert(!d1.contains_key(to[i]));
        }
        assert(same_at(d1, d2, q));
        assert(d2.contains_key(q));
        assert(d3.contains_key(q) && d3[q] == d[q]);
        if stage.is_prefix_of(q) {
            lemma_below_exists(d, stage, q);
        }
        assert(same_at(d3, d4, q));
        assert(same_at(d4, e, q));
    }
}

/// The files of the mod `id` that stand in a tree.
pub open spec fn files_of(
    d: DiskView,
    b: BaseView,
    before: Map<Seq<char>, EntryView>,
    repo: RepoView,
    id: Seq<char>,
    given: Seq<Seq<char>>,
) -> Set<PathView> {
    Set::new(|q: PathView| is_file_at(d, q) && belongs_to(b, before, repo, id, given, q))
}

/// Removing a mod from a profile leaves none of its files, enabled or disabled, recorded or
/// not, and takes no other file. It counts the files that it took, and returns the order
/// that the mod had. The mod is no longer recorded, nor known; the others are as they were.
pub proof fn law_removed_mods_leave_no_file(
    d: DiskView,
    m: ManagerView,
    id: Seq<char>,
    given: Seq<Seq<char>>,
    folder: Option<Seq<char>>,
)
    requires
        rooted(d),
        d.dom().finite(),
        vpks_removed(d, m, id, given, folder).2 is Ok,
        plain_tree(loaded(d, profile_base(m.game_path, folder)->Ok_0.path).0),
    ensures
        ({
            let b = profile_base(m.game_path, folder)->Ok_0;
            let p = b.path;
            let (d1, l) = loaded(d, p);
            let before = l->Ok_0.mods;
            let (e, repo, r) = vpks_removed(d, m, id, given, folder);
            let after = mods_on_record(e, p);
            &&& forall|q: PathView|
                belongs_to(b, before, m.repo, id, given, q) && q != manifest_path(p)
                    ==> !#[trigger] is_file_at(e, q)
            &&& forall|q: PathView|
                is_file_at(d1, q) && !belongs_to(b, before, m.repo, id, given, q) && q
                    != manifest_path(p) && q != manifest_temp_path(p) ==> #[trigger] same_at(
                    d1,
                    e,
                    q,
                )
            &&& r->Ok_0.0 == files_of(d1, b, before, m.repo, id, given).len()
            &&& r->Ok_0.1 == (if before.contains_key(id) {
                before[id].order
            } else {
                None
            })
            &&& before.contains_key(id) ==> !after.contains_key(id)
            &&& forall|x: Seq<char>| #[trigger]
                before.contains_key(x) && x != id ==> after.contains_key(x) && after[x] == before[x]
            &&& repo == m.repo.remove(id)
        }),
{
    let b = profile_base(m.game_path, folder)->Ok_0;
    let p = b.path;
    lemma_base_of_profile(m, folder, b);
    let (d1, l) = loaded(d, p);
    let man = l->Ok_0;
    let before = man.mods;
    law_reading_overwrites_nothing(d, p);
    lemma_sources(d1, b, man, m.repo, id, given);
    let found = prefixed_found(d1, p, id)->Ok_0;
    let sources = mod_sources(
        d1,
        mod_candidates(b, man, id, found, fallback_names(m.repo, id, given)),
    );
    let (e, repo, r) = vpks_removed(d, m, id, given, folder);
    let all = files_of(d1, b, before, m.repo, id, given);
    assert(all =~= sources.to_set()) by {
        assert forall|q: PathView| #[trigger] all.contains(q) <==> sources.to_set().contains(q) by {
            assert(sources.contains(q) <==> all.contains(q));
        }
    }
    sources.unique_seq_to_set();
    if sources.len() == 0 && !before.contains_key(id) {
        lemma_still_on_record(d, p);
        assert forall|q: PathView| belongs_to(b, before, m.repo, id, given, q) implies
            !#[trigger] is_file_at(e, q) by {
            assert(!sources.contains(q));
        }
    } else {
        assert forall|i: int| 0 <= i < sources.len() implies is_file_at(
            d1,
            #[trigger] sources[i],
        ) by {
            assert(sources.contains(sources[i]));
        }
        lemma_sources_removed(d1, b, man, id, sources, e);
        assert forall|q: PathView|
            belongs_to(b, before, m.repo, id, given, q) && q != manifest_path(p) implies
            !#[trigger] is_file_at(e, q) by {
            if is_file_at(e, q) {
                assert(is_file_at(d1, q));
                assert(sources.contains(q));
            }
        }
        assert forall|q: PathView|
            is_file_at(d1, q) && !belongs_to(b, before, m.repo, id, given, q) && q
                != manifest_path(p) && q != manifest_temp_path(p) implies #[trigger] same_at(
            d1,
            e,
            q,
        ) by {
            assert(!sources.contains(q));
        }
    }
}

/// Removing a mod for good also takes what is kept of it in the store, and nothing
/// else that stands outside.
pub proof fn law_purged_mods_leave_no_file(
    d: DiskView,
    m: ManagerView,
    id: Seq<char>,
    given: Seq<Seq<char>>,
    folder: Option<Seq<char>>,
)
    requires
        rooted(d),
        d.dom().finite(),
        mod_purged(d, m, id, given, folder).2 is Ok,
        plain_tree(loaded(d, profile_base(m.game_path, folder)->Ok_0.path).0),
    ensures
        ({
            let b = profile_base(m.game_path, folder)->Ok_0;
            let p = b.path;
            let (d1, l) = loaded(d, p);
            let before = l->Ok_0.mods;
            let (e, repo, r) = mod_purged(d, m, id, given, folder);
            let kept = path_join(m.mods_store, id);
            &&& forall|q: PathView|
                belongs_to(b, before, m.repo, id, given, q) && q != manifest_path(p)
                    ==> !#[trigger] is_file_at(e, q)
            &&& !exists_at(e, kept)
            &&& forall|q: PathView|
                is_file_at(d1, q) && !belongs_to(b, before, m.repo, id, given, q) && q
                    != manifest_path(p) && q != manifest_temp_path(p) && !kept.is_prefix_of(q)
                    ==> #[trigger] same_at(d1, e, q)
            &&& before.contains_key(id) ==> !mods_on_record(e, p).contains_key(id)
            &&& repo == m.repo.remove(id)
        }),
{
    law_removed_mods_leave_no_file(d, m, id, given, folder);
    let b = profile_base(m.game_path, folder)->Ok_0;
    let before = loaded(d, b.path).1->Ok_0.mods;
    let d1 = loaded(d, b.path).0;
    let e1 = vpks_removed(d, m, id, given, folder).0;
    let e = mod_purged(d, m, id, given, folder).0;
    let kept = path_join(m.mods_store, id);
    assert(kept.is_prefix_of(kept)) by {
        assert(kept =~= kept.take(kept.len() as int));
    }
    assert forall|q: PathView|
        belongs_to(b, before, m.repo, id, given, q) && q != manifest_path(b.path) implies
        !#[trigger] is_file_at(e, q) by {
        assert(!is_file_at(e1, q));
    }
    assert forall|q: PathView|
        is_file_at(d1, q) && !belongs_to(b, before, m.repo, id, given, q) && q != manifest_path(
            b.path,
        ) && q != manifest_temp_path(b.path) && !kept.is_prefix_of(q) implies #[trigger] same_at(
        d1,
        e,
        q,
    ) by {
        assert(same_at(d1, e1, q));
    }
}

/// Removing a mod that is on record leaves no shard but the first with an empty directory.
pub proof fn law_removing_leaves_no_empty_shard(
    d: DiskView,
    m: ManagerView,
    b: BaseView,
    id: Seq<char>,
    given: Seq<Seq<char>>,
    folder: Option<Seq<char>>,
)
    requires
        profile_base(m.game_path, folder) == Ok::<BaseView, ErrorView>(b),
        loaded(d, b.path).1->Ok_0.mods.contains_key(id),
        vpks_removed(d, m, id, given, folder).2 is Ok,
        vpks_removed(d, m, id, given, folder).0.dom().finite(),
    ensures
        no_empty_shard(vpks_removed(d, m, id, given, folder).0, b),
{
    lemma_base_of_profile(m, folder, b);
    let (d1, l) = loaded(d, b.path);
    let man = l->Ok_0;
    let found = prefixed_found(d1, b.path, id)->Ok_0;
    let sources = mod_sources(
        d1,
        mod_candidates(b, man, id, found, fallback_names(m.repo, id, given)),
    );
    let stage = b.path.push(UPDATE_STAGING_PREFIX@ + id);
    let d2 = claimed(d1, stage)->Ok_0;
    let d3 = run_plan(d2, staging_plan(b, stage, sources, sources.len() as int)->Ok_0)->Ok_0;
    let d4 = saved(d3, b.path, without_mod(man, id)).0;
    let d5 = if is_dir_at(d4, stage) {
        without_tree(d4, stage)
    } else {
        d4
    };
    assert(vpks_removed(d, m, id, given, folder).0 == pruned_shards(d5, b));
    law_no_empty_shard_is_left(d5, b);
}

} // verus!
