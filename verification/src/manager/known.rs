//! What is known and recorded of mods that are learned, installed and uninstalled.
use super::{profile_base, ManagerView, ModView};
use super::lifecycle::{mod_installed, mod_uninstalled, mods_hydrated, names_or, unknown_ids};
use super::ordering::without_prefixes;
use super::places::{law_no_empty_shard_is_left, no_empty_shard};
use super::recording::{lemma_base_of_profile, lemma_uninstalled};
use super::reorder::profile_migrated;
use crate::disk::{
    exists_at, is_dir_at, is_file_at, lemma_filter_distinct, lemma_filter_members,
    lemma_names_in, names_in, rooted, same_at, DiskView, NodeView,
};
use crate::error::ErrorView;
use crate::file_tree::tree_of;
use crate::manifest_store::{
    lemma_saved, loaded, manifest_path, manifest_temp_path, mods_on_record, saved,
};
use crate::path::{lemma_own_name, plain_name, vpk_name, PathView, TreePath};
use crate::shard::{shard_dir_of, valid_shard, BaseView, MAX_SHARDS};
use crate::table::{ascending, keys_of, lemma_filter_in_order, lemma_finite_has_order, Key};
use crate::text::{starts_with, text_before};
use crate::vpk_manager::MissingVpkPolicy;
use crate::vpk_manager::moves::places;
use crate::vpk_manager::naming::pak_number;
use crate::vpk_manager::operations::{disabled, file_names, prefixed_in, prefixed_names};
use crate::vpk_manager::reorder::pruned_shards;
use crate::vpk_manager::setting_aside::lemma_pruned_files;
use crate::vpk_manifest::{marked_disabled, shard_of_mod, EntryView, ManifestView};
use vstd::prelude::*;

verus! {

/// The disabled files of a mod are the VPK files of a directory whose name begins with the id
/// and an underscore; each is found once, in the order of their names.
pub proof fn law_every_disabled_file_is_found(d: DiskView, dir: PathView, id: Seq<char>)
    requires
        d.dom().finite(),
    ensures
        forall|n: Seq<char>| #[trigger]
            prefixed_names(d, dir, id).contains(n) <==> is_file_at(d, dir.push(n)) && vpk_name(n)
                && starts_with(n, id + "_"@),
        prefixed_names(d, dir, id).no_duplicates(),
        ascending::<String>(prefixed_names(d, dir, id)),
{
    lemma_finite_has_order::<TreePath, NodeView>(d);
    lemma_names_in(d, dir);
    let names = names_in(d, dir);
    let pred = |n: Seq<char>| prefixed_in(d, dir, id, n);
    lemma_filter_members(names, pred);
    assert forall|i: int, j: int| 0 <= i < j < names.len() implies #[trigger] names[i]
        != #[trigger] names[j] by {
        assert(text_before(names[i], names[j]));
        if names[i] == names[j] {
            String::before_total(names[i], names[j]);
        }
    }
    lemma_filter_distinct(names, pred);
    lemma_filter_in_order::<String>(names, pred);
}

/// The original names of disabled files are what stands behind the id and the underscore.
pub proof fn law_prefixes_are_taken_off(id: Seq<char>, names: Seq<Seq<char>>)
    requires
        forall|i: int| 0 <= i < names.len() ==> starts_with(#[trigger] names[i], id + "_"@),
    ensures
        without_prefixes(id, names).len() == names.len(),
        forall|i: int|
            0 <= i < names.len() ==> #[trigger] names[i] == id + "_"@ + without_prefixes(
                id,
                names,
            )[i],
{
    assert forall|i: int| 0 <= i < names.len() implies #[trigger] names[i] == id + "_"@
        + without_prefixes(id, names)[i] by {
        let p = id + "_"@;
        assert(starts_with(names[i], p));
        assert(names[i] =~= names[i].take(p.len() as int) + names[i].skip(p.len() as int));
    }
}

/// A mod whose enabled files are all there, and can take their names back.
pub open spec fn can_be_set_aside(
    d: DiskView,
    b: BaseView,
    id: Seq<char>,
    e: EntryView,
    names: Seq<Seq<char>>,
) -> bool {
    let dir = shard_dir_of(b, e.shard);
    &&& valid_shard(e.shard)
    &&& names.len() > 0
    &&& e.current.len() == names.len()
    &&& e.original.len() == names.len()
    &&& forall|i: int|
        0 <= i < names.len() ==> plain_name(#[trigger] e.current[i]) && pak_number(
            e.current[i],
        ) is Some && is_file_at(d, dir.push(e.current[i]))
    &&& forall|i: int|
        0 <= i < names.len() ==> #[trigger] names[i] == id + "_"@ + e.original[i] && plain_name(
            names[i],
        ) && vpk_name(names[i]) && !exists_at(d, b.path.push(names[i]))
    &&& e.current.no_duplicates()
    &&& names.no_duplicates()
}

/// Uninstalling a mod moves each of its enabled files to its own disabled name, with what it
/// holds; the mod is then on record as disabled with those files, and known without installed
/// ones. The other files, and what is on record or known of other mods, stay as they were.
pub proof fn law_uninstalled_mods_keep_their_files(
    d: DiskView,
    b: BaseView,
    m: ManagerView,
    folder: Option<Seq<char>>,
    id: Seq<char>,
    vpks: Seq<Seq<char>>,
    now: ManifestView,
    names: Seq<Seq<char>>,
)
    requires
        profile_base(m.game_path, folder) == Ok::<BaseView, ErrorView>(b),
        rooted(d),
        d.dom().finite(),
        is_dir_at(d, b.path),
        is_file_at(d, manifest_path(b.path)),
        !exists_at(d, manifest_temp_path(b.path)),
        loaded(d, b.path) == (d, Ok::<ManifestView, ErrorView>(now)),
        now.mods.contains_key(id),
        can_be_set_aside(d, b, id, now.mods[id], names),
        m.repo.contains_key(id) ==> m.repo[id].id == id,
    ensures
        ({
            let (e, repo, r) = mod_uninstalled(d, m, id, vpks, folder);
            let dir = shard_dir_of(b, now.mods[id].shard);
            let after = mods_on_record(e, b.path);
            &&& r == Ok::<(), ErrorView>(())
            &&& forall|i: int|
                0 <= i < names.len() ==> !exists_at(e, dir.push(#[trigger] now.mods[id].current[i]))
            &&& forall|i: int|
                0 <= i < names.len() ==> e.contains_key(b.path.push(#[trigger] names[i]))
                    && e[b.path.push(names[i])] == d[dir.push(now.mods[id].current[i])]
            &&& forall|q: PathView|
                is_file_at(d, q) && q != manifest_path(b.path) && (forall|i: int|
                    0 <= i < names.len() ==> q != dir.push(#[trigger] now.mods[id].current[i]))
                    ==> #[trigger] same_at(d, e, q)
            &&& after.contains_key(id)
            &&& !after[id].enabled
            &&& after[id].disabled == names
            &&& after[id].current.len() == 0
            &&& after[id].original == now.mods[id].original
            &&& after[id].order == now.mods[id].order
            &&& forall|other: Seq<char>|
                other != id ==> (#[trigger] after.contains_key(other) <==> now.mods.contains_key(
                    other,
                )) && (after.contains_key(other) ==> after[other] == now.mods[other])
            &&& m.repo.contains_key(id) ==> repo.contains_key(id) && repo[id] == (ModView {
                installed: Seq::empty(),
                ..m.repo[id]
            })
            &&& forall|other: Seq<char>|
                other != id ==> (#[trigger] repo.contains_key(other) <==> m.repo.contains_key(
                    other,
                )) && (repo.contains_key(other) ==> repo[other] == m.repo[other])
        }),
{
    let entry = now.mods[id];
    let dir = shard_dir_of(b, entry.shard);
    let to = places(dir, entry.current);
    let from = places(b.path, names);
    assert forall|i: int| 0 <= i < to.len() implies d.contains_key(#[trigger] to[i]) by {
        assert(is_file_at(d, dir.push(entry.current[i])));
    }
    assert forall|i: int| 0 <= i < from.len() implies !d.contains_key(#[trigger] from[i]) by {
        assert(from[i] == b.path.push(names[i]));
    }
    assert forall|i: int, j: int| 0 <= i < j < to.len() implies #[trigger] to[i] != #[trigger] to[j] by {
        assert(to[i].last() == entry.current[i]);
        assert(to[j].last() == entry.current[j]);
    }
    assert forall|i: int, j: int| 0 <= i < j < from.len() implies #[trigger] from[i]
        != #[trigger] from[j] by {
        assert(from[i].last() == names[i]);
        assert(from[j].last() == names[j]);
    }
    lemma_uninstalled(d, b, m, folder, id, vpks, now, names);
    let e = mod_uninstalled(d, m, id, vpks, folder).0;
    assert forall|i: int| 0 <= i < names.len() implies !exists_at(
        e,
        dir.push(#[trigger] entry.current[i]),
    ) by {
        assert(to[i] == dir.push(entry.current[i]));
    }
    assert forall|i: int| 0 <= i < names.len() implies e.contains_key(
        b.path.push(#[trigger] names[i]),
    ) && e[b.path.push(names[i])] == d[dir.push(entry.current[i])] by {
        assert(from[i] == b.path.push(names[i]));
        assert(to[i] == dir.push(entry.current[i]));
    }
    assert forall|q: PathView|
        is_file_at(d, q) && q != manifest_path(b.path) && (forall|i: int|
            0 <= i < names.len() ==> q != dir.push(#[trigger] entry.current[i])) implies
        #[trigger] same_at(d, e, q) by {
        if to.contains(q) {
            let i = choose|i: int| 0 <= i < to.len() && to[i] == q;
            assert(to[i] == dir.push(entry.current[i]));
        }
    }
}

/// Uninstalling a mod of which no enabled file is on record sets those files aside that the
/// caller names, or else those that are known of it, just as disabling them does; they are then
/// on record as its disabled files.
pub proof fn law_named_files_are_uninstalled(
    d: DiskView,
    b: BaseView,
    m: ManagerView,
    folder: Option<Seq<char>>,
    id: Seq<char>,
    vpks: Seq<Seq<char>>,
    now: ManifestView,
)
    requires
        profile_base(m.game_path, folder) == Ok::<BaseView, ErrorView>(b),
        exists_at(d, b.path),
        loaded(d, b.path) == (d, Ok::<ManifestView, ErrorView>(now)),
        !now.mods.contains_key(id),
        forall|i: int| 0 <= i < vpks.len() ==> plain_name(#[trigger] vpks[i]),
        vpks.len() > 0 || (m.repo.contains_key(id) && m.repo[id].installed.len() > 0),
        mod_uninstalled(d, m, id, vpks, folder).2 is Ok,
    ensures
        ({
            let (e, repo, _) = mod_uninstalled(d, m, id, vpks, folder);
            let known = m.repo[id];
            let installed = if vpks.len() > 0 {
                vpks
            } else {
                known.installed
            };
            let original = if vpks.len() > 0 {
                vpks
            } else if known.original.len() > 0 {
                known.original
            } else {
                known.installed
            };
            let (d1, r) = disabled(
                d,
                b.path,
                b.path,
                id,
                installed,
                original,
                MissingVpkPolicy::Reconcile,
            );
            let after = mods_on_record(e, b.path);
            &&& r is Ok
            &&& after.contains_key(id)
            &&& !after[id].enabled
            &&& after[id].disabled == r->Ok_0
            &&& after[id].current.len() == 0
            &&& forall|q: PathView|
                is_file_at(d1, q) && q != manifest_path(b.path) && q != manifest_temp_path(b.path)
                    ==> #[trigger] same_at(d1, e, q)
            &&& forall|q: PathView| #[trigger]
                is_file_at(e, q) && q != manifest_path(b.path) ==> same_at(d1, e, q)
        }),
{
    let e = mod_uninstalled(d, m, id, vpks, folder).0;
    if vpks.len() > 0 {
        assert(file_names(vpks) =~= vpks) by {
            assert forall|i: int| 0 <= i < vpks.len() implies file_names(vpks)[i] == vpks[i] by {
                lemma_own_name(vpks[i]);
            }
        }
    }
    let known = m.repo[id];
    let installed = if vpks.len() > 0 {
        vpks
    } else {
        known.installed
    };
    let original = if vpks.len() > 0 {
        vpks
    } else if known.original.len() > 0 {
        known.original
    } else {
        known.installed
    };
    let (d1, r) = disabled(
        d,
        b.path,
        b.path,
        id,
        installed,
        original,
        MissingVpkPolicy::Reconcile,
    );
    let gone = marked_disabled(now, id, r->Ok_0, original);
    let d2 = saved(d1, b.path, gone).0;
    lemma_saved(d1, b.path, gone);
    lemma_pruned_files(d2, b, MAX_SHARDS as nat);
    assert(e == pruned_shards(d2, b));
    assert(is_file_at(d2, manifest_path(b.path)));
    assert(same_at(d2, e, manifest_path(b.path)));
    assert forall|q: PathView|
        is_file_at(d1, q) && q != manifest_path(b.path) && q != manifest_temp_path(
            b.path,
        ) implies #[trigger] same_at(d1, e, q) by {
        assert(is_file_at(d2, q));
        assert(same_at(d2, e, q));
    }
    assert forall|q: PathView| #[trigger] is_file_at(e, q) && q != manifest_path(b.path) implies
        same_at(d1, e, q) by {
        assert(same_at(d2, e, q));
    }
}

/// A mod that is on record as disabled is left as it is by uninstalling it. One of which no
/// file is on record, given or known is refused, and nothing changes.
pub proof fn law_nothing_to_uninstall(
    d: DiskView,
    b: BaseView,
    m: ManagerView,
    folder: Option<Seq<char>>,
    id: Seq<char>,
    now: ManifestView,
)
    requires
        profile_base(m.game_path, folder) == Ok::<BaseView, ErrorView>(b),
        exists_at(d, b.path),
        loaded(d, b.path).1 == Ok::<ManifestView, ErrorView>(now),
        now.mods.contains_key(id) ==> now.mods[id].current.len() == 0,
        m.repo.contains_key(id) ==> m.repo[id].installed.len() == 0,
    ensures
        ({
            let (e, repo, r) = mod_uninstalled(d, m, id, Seq::empty(), folder);
            let set_aside = now.mods.contains_key(id) && !now.mods[id].enabled
                && now.mods[id].disabled.len() > 0;
            &&& e == loaded(d, b.path).0
            &&& repo == m.repo
            &&& r is Ok <==> set_aside
            &&& r is Err ==> r->Err_0 is ModInvalid
        }),
{
}

/// A mod without files in the profile, which is not a local one with files kept elsewhere, is
/// not installed, and nothing changes.
pub proof fn law_nothing_to_install(
    d: DiskView,
    m: ManagerView,
    b: BaseView,
    x: ModView,
    folder: Option<Seq<char>>,
)
    requires
        profile_base(m.game_path, folder) == Ok::<BaseView, ErrorView>(b),
        is_dir_at(d, b.path),
        d.dom().finite(),
        forall|n: Seq<char>|
            is_file_at(d, #[trigger] b.path.push(n)) && vpk_name(n) ==> !starts_with(n, x.id + "_"@),
        !starts_with(x.id, "local-"@),
    ensures
        mod_installed(d, m, x, folder).0 == d,
        mod_installed(d, m, x, folder).1 == m.repo,
        mod_installed(d, m, x, folder).2 is Err,
        mod_installed(d, m, x, folder).2->Err_0 is ModInvalid,
{
    law_every_disabled_file_is_found(d, b.path, x.id);
    let names = prefixed_names(d, b.path, x.id);
    if names.len() > 0 {
        assert(names.contains(names[0]));
        assert(is_file_at(d, b.path.push(names[0])));
    }
}

/// A mod that is installed is known with the names of its enabled files and its original ones,
/// and otherwise as it was given. If no files of it were told before, it offers the original
/// ones, each of them chosen. The other mods are known as before.
pub proof fn law_installed_mods_become_known(
    d: DiskView,
    m: ManagerView,
    x: ModView,
    folder: Option<Seq<char>>,
    y: ModView,
)
    requires
        x.install_order is None,
        mod_installed(d, m, x, folder).2 == Ok::<ModView, ErrorView>(y),
    ensures
        mod_installed(d, m, x, folder).1 == m.repo.insert(x.id, y),
        y.id == x.id,
        y.name == x.name,
        y.is_map == x.is_map,
        y.install_order is None,
        x.file_tree is Some ==> y.file_tree == x.file_tree,
        x.file_tree is None && y.original.len() > 0 ==> {
            let t = y.file_tree->0;
            &&& y.file_tree is Some
            &&& t.files.len() == y.original.len()
            &&& t.total_files == y.original.len()
            &&& t.has_multiple_files <==> y.original.len() > 1
            &&& forall|i: int|
                0 <= i < t.files.len() ==> (#[trigger] t.files[i]).name == y.original[i]
                    && t.files[i].is_selected
        },
{
    if x.file_tree is None && y.original.len() > 0 {
        let t = y.file_tree->0;
        assert(t == tree_of(y.original, y.original));
        assert forall|i: int| 0 <= i < t.files.len() implies (#[trigger] t.files[i]).name
            == y.original[i] && t.files[i].is_selected by {
            assert(y.original.contains(y.original[i]));
        }
    }
}

/// Learning the mods of a profile makes every mod on record known, as it is recorded: under
/// its id, with its order, its original names, and its files if it is enabled. A mod that was
/// known stays as it was. The number told is that of the mods that were not known.
pub proof fn law_recorded_mods_become_known(
    d: DiskView,
    m: ManagerView,
    folder: Option<Seq<char>>,
    b: BaseView,
)
    requires
        profile_base(m.game_path, folder) == Ok::<BaseView, ErrorView>(b),
        mods_hydrated(d, m, folder).2 is Ok,
        loaded(profile_migrated(d, m, folder).0, b.path).1->Ok_0.mods.dom().finite(),
    ensures
        ({
            let (e, repo, r) = mods_hydrated(d, m, folder);
            let (d1, known, _) = profile_migrated(d, m, folder);
            let on_record = loaded(d1, b.path).1->Ok_0.mods;
            &&& forall|id: Seq<char>| #[trigger]
                repo.contains_key(id) <==> known.contains_key(id) || on_record.contains_key(id)
            &&& forall|id: Seq<char>| #[trigger]
                known.contains_key(id) ==> repo[id] == known[id]
            &&& forall|id: Seq<char>| #[trigger]
                on_record.contains_key(id) && !known.contains_key(id) ==> {
                    &&& repo[id].id == id
                    &&& repo[id].name == id
                    &&& !repo[id].is_map
                    &&& repo[id].file_tree is None
                    &&& repo[id].install_order == on_record[id].order
                    &&& repo[id].original == on_record[id].original
                    &&& on_record[id].enabled ==> repo[id].installed == on_record[id].current
                    &&& !on_record[id].enabled ==> repo[id].installed.len() == 0
                }
            &&& r->Ok_0 == on_record.dom().difference(known.dom()).len()
        }),
{
    let (d1, known, _) = profile_migrated(d, m, folder);
    let manifest = loaded(d1, b.path).1->Ok_0;
    let keys = keys_of::<String, EntryView>(manifest.mods);
    lemma_finite_has_order::<String, EntryView>(manifest.mods);
    let pred = |id: Seq<char>| !known.contains_key(id);
    assert forall|i: int, j: int| 0 <= i < j < keys.len() implies #[trigger] keys[i]
        != #[trigger] keys[j] by {
        assert(text_before(keys[i], keys[j]));
        if keys[i] == keys[j] {
            String::before_total(keys[i], keys[j]);
        }
    }
    lemma_filter_distinct(keys, pred);
    lemma_filter_members(keys, pred);
    let ids = unknown_ids(known, manifest);
    ids.unique_seq_to_set();
    assert(ids.to_set() =~= manifest.mods.dom().difference(known.dom())) by {
        assert forall|id: Seq<char>| ids.to_set().contains(id) <==> manifest.mods.dom().difference(
            known.dom(),
        ).contains(id) by {
            assert(ids.contains(id) <==> keys.contains(id) && pred(id));
            assert(keys.contains(id) <==> manifest.mods.contains_key(id));
        }
    }
}

/// Uninstalling a mod of which an enabled file is on record leaves no shard but the first with
/// an empty directory.
pub proof fn law_uninstalling_leaves_no_empty_shard(
    d: DiskView,
    b: BaseView,
    m: ManagerView,
    folder: Option<Seq<char>>,
    id: Seq<char>,
    vpks: Seq<Seq<char>>,
    now: ManifestView,
)
    requires
        profile_base(m.game_path, folder) == Ok::<BaseView, ErrorView>(b),
        loaded(d, b.path).1 == Ok::<ManifestView, ErrorView>(now),
        now.mods.contains_key(id),
        now.mods[id].current.len() > 0,
        mod_uninstalled(d, m, id, vpks, folder).2 is Ok,
        mod_uninstalled(d, m, id, vpks, folder).0.dom().finite(),
    ensures
        no_empty_shard(mod_uninstalled(d, m, id, vpks, folder).0, b),
{
    lemma_base_of_profile(m, folder, b);
    let d1 = loaded(d, b.path).0;
    let current = now.mods[id].current;
    let original = names_or(now.mods[id].original, current);
    let (d2, r) = disabled(
        d1,
        shard_dir_of(b, shard_of_mod(now, id)),
        b.path,
        id,
        current,
        original,
        MissingVpkPolicy::Reconcile,
    );
    let d3 = saved(d2, b.path, marked_disabled(now, id, r->Ok_0, original)).0;
    assert(mod_uninstalled(d, m, id, vpks, folder).0 == pruned_shards(d3, b));
    law_no_empty_shard_is_left(d3, b);
}

} // verus!
