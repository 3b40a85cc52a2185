//! What reading a manifest settles, and what checking a tree asks for.
use super::{
    clear_recovered, lemma_manifest_names_differ, lemma_no_updates, lemma_tidy_profile,
    lemma_tidy_profiles, loaded, manifest_fault, manifest_path, manifest_temp_path,
    missing_paths, nothing_staged, plain_dirs, profile_checked, profiles_checked,
    reached_plainly, reorder_recovered, tidy, tree_checked, update_recovered,
};
use crate::disk::{
    all_paths, can_rename, exists_at, is_below, is_dir_at, is_file_at, lemma_filter_members,
    lemma_names_in, names_in, paths_below, renamed, same_at, without_tree, DiskView, NodeView,
};
use crate::error::ErrorView;
use crate::path::{path_join, PathView, TreePath};
use crate::shard::{base_of, shard_dir_of, BaseView, UPDATE_STAGING_PREFIX};
use crate::table::{keys_of, lemma_finite_has_order};
use crate::text::starts_with;
use crate::vpk_manager::staging::{recovered, RecoveryMode};
use crate::vpk_manifest::{empty_manifest, entry_paths, EntryView, ManifestView};
use vstd::prelude::*;

verus! {

/// A manifest of some version, as a file.
pub open spec fn holds_manifest(d: DiskView, p: PathView, m: ManifestView) -> bool {
    d.contains_key(p) && d[p].body is Manifest && d[p].body->manifest == m
}

proof fn lemma_still_nothing(d: DiskView, e: DiskView, p: PathView)
    requires
        d.dom().finite(),
        nothing_staged(d, p),
        forall|q: PathView| #[trigger] is_dir_at(e, q) ==> is_dir_at(d, q),
    ensures
        nothing_staged(e, p),
{
    lemma_finite_has_order::<TreePath, NodeView>(d);
    lemma_names_in(d, p);
    assert forall|name: Seq<char>|
        names_in(e, p).contains(name) && starts_with(
            name,
            UPDATE_STAGING_PREFIX@,
        ) implies !#[trigger] is_dir_at(e, p.push(name)) by {
        if is_dir_at(e, p.push(name)) {
            assert(is_dir_at(d, p.push(name)));
            assert(names_in(d, p).contains(name));
        }
    }
}

/// A manifest that stands in its place is read as it is, and one that an interrupted write left
/// beside it is removed. If it is the only one, it takes its place and is read. Where there is
/// neither, no mod is on record. A manifest of a later version than 2 is not read.
pub proof fn law_interrupted_writes_are_settled(
    d: DiskView,
    p: PathView,
    m: ManifestView,
)
    requires
        d.dom().finite(),
        nothing_staged(d, p),
        base_of(p, false) is Some,
    ensures
        ({
            let main = manifest_path(p);
            let temp = manifest_temp_path(p);
            let (e, r) = loaded(d, p);
            &&& holds_manifest(d, main, m) && m.version <= 2 && !exists_at(d, temp) ==> e == d && r
                is Ok && r->Ok_0.mods == m.mods && r->Ok_0.version == 2
            &&& holds_manifest(d, main, m) && m.version <= 2 && is_file_at(d, temp) ==> e
                == d.remove(temp) && r is Ok && r->Ok_0.mods == m.mods && r->Ok_0.version == 2
            &&& !exists_at(d, main) && holds_manifest(d, temp, m) && m.version <= 2
                && can_rename(d, temp, main) ==> !exists_at(e, temp)
                && holds_manifest(e, main, m) && r is Ok && r->Ok_0.mods == m.mods && (forall|
                q: PathView,
            |
                q != main && q != temp ==> #[trigger] same_at(d, e, q))
            &&& !exists_at(d, main) && !exists_at(d, temp) ==> e == d && r is Ok && r->Ok_0.mods
                == Map::<Seq<char>, EntryView>::empty()
            &&& holds_manifest(d, main, m) && m.version > 2 ==> r is Err && r->Err_0
                is InvalidInput
        }),
{
    let main = manifest_path(p);
    let temp = manifest_temp_path(p);
    lemma_manifest_names_differ();
    assert(main.last() != temp.last());
    let b = base_of(p, false)->0;
    let (e, r) = loaded(d, p);
    let names = names_in(d, p);
    let current = ManifestView { version: 2, mods: m.mods };
    let none = empty_manifest();
    if is_dir_at(d, p) {
        lemma_no_updates(d, b, p, current, names, names.len() as int);
        lemma_no_updates(d, b, p, none, names, names.len() as int);
    }
    if is_file_at(d, temp) && exists_at(d, main) {
        let d1 = d.remove(temp);
        lemma_still_nothing(d, d1, p);
        let later = names_in(d1, p);
        if is_dir_at(d1, p) {
            lemma_no_updates(d1, b, p, current, later, later.len() as int);
        }
    }
    if !exists_at(d, main) && holds_manifest(d, temp, m) && m.version <= 2
        && can_rename(d, temp, main) {
        let d1 = renamed(d, temp, main);
        assert(d1 =~= d.remove(temp).insert(main, d[temp]));
        assert forall|q: PathView| #[trigger] is_dir_at(d1, q) implies is_dir_at(d, q) by {}
        lemma_still_nothing(d, d1, p);
        let later = names_in(d1, p);
        if is_dir_at(d1, p) {
            lemma_no_updates(d1, b, p, current, later, later.len() as int);
        }
    }
}

/// What a clearing set aside is dropped where no mod is on record, and put back where one is.
/// What a reordering set aside is put back. What an update of a mod set aside is put back where
/// the mod is still on record, and dropped where it is not.
pub proof fn law_leftovers_are_settled(
    d: DiskView,
    b: BaseView,
    p: PathView,
    m: ManifestView,
    id: Seq<char>,
)
    ensures
        ({
            let clear = p.push(".dmm-clear"@);
            let reorder = p.push(".dmm-reorder"@);
            let update = p.push(".dmm-update-"@ + id);
            &&& is_dir_at(d, clear) && (forall|x: Seq<char>| !#[trigger] m.mods.contains_key(x))
                ==> clear_recovered(d, b, p, m) == (without_tree(d, clear), Ok::<(), ErrorView>(
                (),
            ))
            &&& is_dir_at(d, clear) && m.mods.contains_key(id) ==> clear_recovered(d, b, p, m)
                == recovered(d, b, clear, RecoveryMode::Strict)
            &&& is_dir_at(d, reorder) ==> reorder_recovered(d, b, p) == recovered(
                d,
                b,
                reorder,
                RecoveryMode::AvoidEnabledCollisions,
            )
            &&& is_dir_at(d, update) && m.mods.contains_key(id) ==> update_recovered(
                d,
                b,
                p,
                m,
                ".dmm-update-"@ + id,
            ) == recovered(d, b, update, RecoveryMode::Strict)
            &&& is_dir_at(d, update) && !m.mods.contains_key(id) ==> update_recovered(
                d,
                b,
                p,
                m,
                ".dmm-update-"@ + id,
            ) == (without_tree(d, update), Ok::<(), ErrorView>(()))
            &&& !is_dir_at(d, clear) ==> clear_recovered(d, b, p, m).0 == d
            &&& !is_dir_at(d, reorder) ==> reorder_recovered(d, b, p).0 == d
        }),
{
    let name = ".dmm-update-"@ + id;
    assert(name.take(".dmm-update-"@.len() as int) =~= ".dmm-update-"@);
    assert(name.skip(".dmm-update-"@.len() as int) =~= id);
    if forall|x: Seq<char>| !#[trigger] m.mods.contains_key(x) {
        assert(m.mods =~= Map::<Seq<char>, EntryView>::empty());
    }
    if m.mods.contains_key(id) {
        assert(m.mods != Map::<Seq<char>, EntryView>::empty());
    }
}

/// Every file that an entry records is there.
pub open spec fn all_files_there(d: DiskView, b: BaseView, e: EntryView) -> bool {
    &&& e.enabled ==> forall|i: int|
        0 <= i < e.current.len() ==> is_file_at(
            d,
            path_join(shard_dir_of(b, e.shard), #[trigger] e.current[i]),
        )
    &&& !e.enabled ==> forall|i: int|
        0 <= i < e.disabled.len() ==> is_file_at(d, path_join(b.path, #[trigger] e.disabled[i]))
}

proof fn lemma_missing(d: DiskView, b: BaseView, e: EntryView)
    ensures
        missing_paths(d, b, e).len() == 0 <==> all_files_there(d, b, e),
{
    let paths = entry_paths(e, b);
    let pred = |p: PathView| !is_file_at(d, p);
    let lost = missing_paths(d, b, e);
    lemma_filter_members(paths, pred);
    if lost.len() > 0 {
        assert(lost.contains(lost[0]));
        let i = choose|i: int| 0 <= i < paths.len() && paths[i] == lost[0];
        if e.enabled {
            assert(paths[i] == path_join(shard_dir_of(b, e.shard), e.current[i]));
        } else {
            assert(paths[i] == path_join(b.path, e.disabled[i]));
        }
    } else {
        assert forall|i: int| 0 <= i < paths.len() implies is_file_at(d, #[trigger] paths[i]) by {
            if !is_file_at(d, paths[i]) {
                assert(paths.contains(paths[i]));
                assert(lost.contains(paths[i]));
            }
        }
        if e.enabled {
            assert forall|i: int| 0 <= i < e.current.len() implies is_file_at(
                d,
                path_join(shard_dir_of(b, e.shard), #[trigger] e.current[i]),
            ) by {
                assert(is_file_at(d, paths[i]));
            }
        } else {
            assert forall|i: int| 0 <= i < e.disabled.len() implies is_file_at(
                d,
                path_join(b.path, #[trigger] e.disabled[i]),
            ) by {
                assert(is_file_at(d, paths[i]));
            }
        }
    }
}

proof fn lemma_fault(d: DiskView, b: BaseView, m: ManifestView, k: int)
    requires
        0 <= k <= keys_of::<String, EntryView>(m.mods).len(),
    ensures
        manifest_fault(d, b, m, k) is None <==> forall|i: int|
            0 <= i < k ==> all_files_there(
                d,
                b,
                m.mods[#[trigger] keys_of::<String, EntryView>(m.mods)[i]],
            ),
    decreases k,
{
    if k > 0 {
        lemma_fault(d, b, m, k - 1);
        lemma_missing(d, b, m.mods[keys_of::<String, EntryView>(m.mods)[k - 1]]);
    }
}

/// A directory whose manifest, if it has one, can be read and records only files that are there.
pub open spec fn is_sound(d: DiskView, p: PathView) -> bool {
    is_file_at(d, manifest_path(p)) ==> {
        &&& base_of(p, false) is Some
        &&& loaded(d, p).1 is Ok
        &&& forall|id: Seq<char>| #[trigger]
            loaded(d, p).1->Ok_0.mods.contains_key(id) ==> all_files_there(
                d,
                base_of(p, false)->0,
                loaded(d, p).1->Ok_0.mods[id],
            )
    }
}

proof fn lemma_profile_sound(d: DiskView, root: PathView, p: PathView)
    requires
        tidy(d, root),
        root.is_prefix_of(p),
        is_dir_at(d, p),
        is_file_at(d, manifest_path(p)) && loaded(d, p).1 is Ok ==> loaded(
            d,
            p,
        ).1->Ok_0.mods.dom().finite(),
    ensures
        profile_checked(d, p).1 is Ok <==> is_sound(d, p),
{
    lemma_tidy_profile(d, root, p);
    if is_file_at(d, manifest_path(p)) && base_of(p, false) is Some && loaded(d, p).1 is Ok {
        let b = base_of(p, false)->0;
        let m = loaded(d, p).1->Ok_0;
        let keys = keys_of::<String, EntryView>(m.mods);
        lemma_finite_has_order::<String, EntryView>(m.mods);
        lemma_fault(d, b, m, keys.len() as int);
        if is_sound(d, p) {
            assert forall|i: int| 0 <= i < keys.len() implies all_files_there(
                d,
                b,
                m.mods[#[trigger] keys[i]],
            ) by {
                assert(keys.contains(keys[i]));
                assert(m.mods.contains_key(keys[i]));
            }
        }
        if profile_checked(d, p).1 is Ok {
            assert forall|id: Seq<char>| #[trigger] m.mods.contains_key(id) implies all_files_there(
                d,
                b,
                m.mods[id],
            ) by {
                assert(keys.contains(id));
                let i = choose|i: int| 0 <= i < keys.len() && keys[i] == id;
                assert(all_files_there(d, b, m.mods[keys[i]]));
            }
        }
    }
}

proof fn lemma_profiles_sound(d: DiskView, root: PathView, dirs: Seq<PathView>, k: int)
    requires
        tidy(d, root),
        0 <= k <= dirs.len(),
        forall|i: int|
            0 <= i < dirs.len() ==> root.is_prefix_of(#[trigger] dirs[i]) && is_dir_at(d, dirs[i]),
        forall|i: int|
            0 <= i < dirs.len() && loaded(d, #[trigger] dirs[i]).1 is Ok ==> loaded(
                d,
                dirs[i],
            ).1->Ok_0.mods.dom().finite(),
    ensures
        profiles_checked(d, dirs, k).1 is Ok <==> forall|i: int|
            0 <= i < k ==> is_sound(d, #[trigger] dirs[i]),
    decreases k,
{
    if k > 0 {
        lemma_profiles_sound(d, root, dirs, k - 1);
        lemma_tidy_profiles(d, root, dirs, k - 1);
        lemma_profile_sound(d, root, dirs[k - 1]);
    }
}

/// A directory of a tree that is checked: the addons, or one below them that is reached without
/// a link.
pub open spec fn is_checked(d: DiskView, addons: PathView, p: PathView) -> bool {
    p == addons || (is_below(addons, p) && is_dir_at(d, p) && reached_plainly(d, addons, p))
}

/// A tidy tree passes its check just where the manifest of every one of its directories can be
/// read and records only files that are there. Without addons it does not pass.
pub proof fn law_checked_trees_have_their_files(d: DiskView, root: PathView)
    requires
        d.dom().finite(),
        tidy(d, root.push("addons"@)),
        forall|p: PathView| #[trigger]
            is_checked(d, root.push("addons"@), p) && loaded(d, p).1 is Ok ==> loaded(
                d,
                p,
            ).1->Ok_0.mods.dom().finite(),
    ensures
        tree_checked(d, root).1 is Ok <==> is_dir_at(d, root.push("addons"@)) && (forall|
            p: PathView,
        | #[trigger]
            is_checked(d, root.push("addons"@), p) ==> is_sound(d, p)),
{
    let addons = root.push("addons"@);
    if is_dir_at(d, addons) {
        let plain = plain_dirs(d, addons);
        let dirs = seq![addons] + plain;
        lemma_finite_has_order::<TreePath, NodeView>(d);
        lemma_filter_members(all_paths(d), |p: PathView| is_below(addons, p));
        lemma_filter_members(
            paths_below(d, addons),
            |p: PathView| is_dir_at(d, p) && reached_plainly(d, addons, p),
        );
        assert forall|i: int| 0 <= i < dirs.len() implies addons.is_prefix_of(#[trigger] dirs[i])
            && is_dir_at(d, dirs[i]) && is_checked(d, addons, dirs[i]) by {
            if i > 0 {
                assert(dirs[i] == plain[i - 1]);
                assert(plain.contains(plain[i - 1]));
            } else {
                assert(addons =~= addons.take(addons.len() as int));
            }
        }
        lemma_profiles_sound(d, addons, dirs, dirs.len() as int);
        if tree_checked(d, root).1 is Ok {
            assert forall|p: PathView| #[trigger] is_checked(d, addons, p) implies is_sound(d, p) by {
                if p == addons {
                    assert(is_sound(d, dirs[0]));
                } else {
                    assert(all_paths(d).contains(p));
                    assert(paths_below(d, addons).contains(p));
                    assert(plain.contains(p));
                    let i = choose|i: int| 0 <= i < plain.len() && plain[i] == p;
                    assert(is_sound(d, dirs[i + 1]));
                }
            }
        } else if forall|p: PathView| #[trigger] is_checked(d, addons, p) ==> is_sound(d, p) {
            assert forall|i: int| 0 <= i < dirs.len() implies is_sound(d, #[trigger] dirs[i]) by {
                assert(is_checked(d, addons, dirs[i]));
            }
        }
    }
}

/// The manifest of a profile stands in its directory, and is written beside its place first.
pub proof fn law_manifests_stand_in_their_folder(p: PathView)
    ensures
        manifest_path(p) == p.push(".dmm.json"@),
        manifest_temp_path(p) == p.push(".dmm.json.tmp"@),
{
}

} // verus!
