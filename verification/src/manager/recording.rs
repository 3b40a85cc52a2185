//! What the manifest records of a mod that is installed, and what uninstalling it
//! brings back.
use super::{profile_base, ManagerView, ModView};
use super::lifecycle::{
    files_installed, files_to_disable, installed_mod, mod_installed, mod_uninstalled, names_or,
    ToDisable,
};
use super::ordering::without_prefixes;
use super::reorder::chosen_shard;
use crate::disk::{
    can_rename, exists_at, fresh_manifest, is_dir_at, is_file_at,
    law_changes_keep_the_tree_rooted, lemma_below_exists, lemma_dirs_there,
    lemma_filter_distinct, lemma_filter_members, lemma_names_in, names_in, rename_op, rooted,
    same_at, with_dirs, DiskView, NodeView, OpView,
};
use crate::error::ErrorView;
use crate::manifest_store::{
    law_load_returns_what_save_wrote, lemma_saved, loaded, manifest_path, manifest_temp_path,
    mods_on_record, nothing_staged, saved,
};
use crate::path::{path_parent, plain_name, vpk_name, PathView, TreePath};
use crate::shard::{
    base_of, base_ok, lemma_base_ok, root_of, shard_dir_of, valid_shard, BaseView, MAX_SHARDS,
};
use crate::table::lemma_finite_has_order;
use crate::text::{dec, lemma_dec, starts_with};
use crate::vpk_manager::MissingVpkPolicy;
use crate::vpk_manager::moves::{
    can_be_enabled, lemma_disabled_whole, lemma_enabled_whole, lemma_shifted, places, ready,
    shiftable, shifted,
};
use crate::vpk_manager::naming::pak_number;
use crate::vpk_manager::operations::{
    enabled, prefixed, prefixed_found, prefixed_in, prefixed_names,
};
use crate::vpk_manager::reorder::pruned_shards;
use crate::vpk_manager::setting_aside::{lemma_pruned_files, lemma_shard_dir, plain_tree};
use crate::vpk_manifest::{
    marked_disabled, marked_enabled, shard_of_mod, ManifestView, CURRENT_MANIFEST_VERSION,
    MANIFEST_FILENAME, MANIFEST_TEMP_FILENAME,
};
use vstd::prelude::*;

verus! {

/// A mod that can be installed from a profile in which nothing is left over: its
/// disabled files are there, none of them named like an enabled one.
pub open spec fn installable(d: DiskView, b: BaseView, id: Seq<char>) -> bool {
    &&& rooted(d)
    &&& d.dom().finite()
    &&& plain_tree(d)
    &&& prefixed_found(d, b.path, id) is Ok
    &&& prefixed_names(d, b.path, id).len() > 0
    &&& forall|i: int|
        0 <= i < prefixed_names(d, b.path, id).len() ==> pak_number(
            #[trigger] prefixed_names(d, b.path, id)[i],
        ) is None
    &&& loaded(d, b.path).1 is Ok
    &&& loaded(d, b.path).0 == d
    &&& nothing_staged(d, b.path)
}

/// The files of a mod that is disabled.
pub proof fn lemma_disabled_files(d: DiskView, b: BaseView, id: Seq<char>)
    requires
        installable(d, b, id),
        is_dir_at(d, b.path),
    ensures
        can_be_enabled(d, b.path, prefixed_names(d, b.path, id)),
        forall|i: int|
            0 <= i < prefixed_names(d, b.path, id).len() ==> (#[trigger] prefixed_names(
                d,
                b.path,
                id,
            )[i]) == prefixed(id, without_prefixes(id, prefixed_names(d, b.path, id))[i])
                && vpk_name(prefixed_names(d, b.path, id)[i]),
{
    let names = prefixed_names(d, b.path, id);
    let all = names_in(d, b.path);
    let pred = |n: Seq<char>| prefixed_in(d, b.path, id, n);
    lemma_finite_has_order::<TreePath, NodeView>(d);
    lemma_names_in(d, b.path);
    lemma_filter_members(all, pred);
    lemma_filter_distinct(all, pred);
    assert forall|i: int| 0 <= i < names.len() implies (#[trigger] names[i]) == prefixed(
        id,
        without_prefixes(id, names)[i],
    ) && vpk_name(names[i]) && plain_name(names[i]) && is_file_at(d, b.path.push(names[i])) by {
        let x = names[i];
        assert(names.contains(x));
        let head = id + "_"@;
        assert(starts_with(x, head));
        assert(x =~= head + x.skip(head.len() as int));
        assert(d.contains_key(b.path.push(x)));
        assert(b.path.push(x).last() == x);
    }
}

/// Names that are not those of the manifest.
pub proof fn lemma_not_the_manifest(x: Seq<char>)
    requires
        vpk_name(x) || pak_number(x) is Some,
    ensures
        x != MANIFEST_FILENAME@,
        x != MANIFEST_TEMP_FILENAME@,
{
    reveal_strlit(".dmm.json");
    reveal_strlit(".dmm.json.tmp");
    reveal_strlit(".vpk");
    reveal_strlit("pak");
    assert(MANIFEST_FILENAME@.len() == 9);
    assert(MANIFEST_TEMP_FILENAME@.len() == 13);
    if vpk_name(x) {
        let n = x.len() as int;
        assert(x.skip(n - 4)[3] == x[n - 1]);
        assert(".vpk"@[3] == 'k');
        assert(MANIFEST_FILENAME@[8] == 'n');
        assert(MANIFEST_TEMP_FILENAME@[12] == 'p');
    } else {
        assert(x.take(3)[0] == x[0]);
        assert("pak"@[0] == 'p');
        assert(MANIFEST_FILENAME@[0] == '.');
        assert(MANIFEST_TEMP_FILENAME@[0] == '.');
    }
}

/// A directory of a shard adds no name but plain ones.
pub proof fn lemma_new_dirs_plain(d: DiskView, b: BaseView, n: nat, q: PathView)
    requires
        rooted(d),
        plain_tree(d),
        base_ok(b),
        is_dir_at(d, b.path),
        with_dirs(d, shard_dir_of(b, n)).contains_key(q),
    ensures
        plain_name(q.last()),
{
    let p = b.path;
    let dir = shard_dir_of(b, n);
    if !d.contains_key(q) {
        let j = q.len() as int;
        let c = b.citadel.len() as int;
        assert(q == dir.take(j));
        let up = p.take(j);
        assert(d.contains_key(up)) by {
            if j == p.len() {
                assert(up =~= p);
            } else {
                assert(up.len() > 0);
                if path_parent(up) is Some {
                    lemma_below_exists(d, up, p);
                } else if n <= 1 || c >= 1 {
                    assert(up =~= q);
                } else {
                    reveal_strlit("addons");
                    assert(p[0] == "addons"@);
                    assert(up[0] == p[0]);
                }
            }
        }
        assert(up.last() == p[j - 1]);
        assert(q.last() == dir[j - 1]);
        if n <= 1 || j <= c {
            assert(q =~= up);
        } else if j == c + 1 {
            reveal_strlit("addons");
            reveal_strlit(".");
            reveal_strlit("..");
            lemma_dec(n);
            let r = root_of(n);
            assert(q.last() == r);
            assert(r[0] == 'a');
            assert forall|i: int| 0 <= i < r.len() implies r[i] != '/' by {
                if i >= 6 {
                    assert(r[i] == dec(n)[i - 6]);
                    assert(dec(n).contains(dec(n)[i - 6]));
                }
            }
        } else {
            assert(dir[j - 1] == p[j - 1]);
        }
    }
}

/// What enabling and recording the files of a mod leaves.
pub proof fn lemma_files_recorded(d: DiskView, b: BaseView, x: ModView, y: ModView)
    requires
        base_ok(b),
        base_of(b.path, false) is Some,
        is_dir_at(d, b.path),
        installable(d, b, x.id),
        files_installed(d, b, x, prefixed_names(d, b.path, x.id)).1 == Ok::<ModView, ErrorView>(y),
    ensures
        ({
            let p = b.path;
            let names = prefixed_names(d, p, x.id);
            let original = without_prefixes(x.id, names);
            let target = chosen_shard(d, b, None, names.len())->Ok_0;
            let before = loaded(d, p).1->Ok_0;
            let now = marked_enabled(
                before,
                x.id,
                y.installed,
                original,
                x.install_order,
                target,
            );
            let e = files_installed(d, b, x, names).0;
            let from = places(p, names);
            let to = places(shard_dir_of(b, target), y.installed);
            &&& valid_shard(target)
            &&& y == installed_mod(x, y.installed, original)
            &&& y.installed.len() == names.len()
            &&& rooted(e)
            &&& e.dom().finite()
            &&& plain_tree(e)
            &&& is_dir_at(e, p)
            &&& is_file_at(e, manifest_path(p))
            &&& e[manifest_path(p)] == fresh_manifest(now)
            &&& !exists_at(e, manifest_temp_path(p))
            &&& nothing_staged(e, p)
            &&& now.version == CURRENT_MANIFEST_VERSION
            &&& loaded(e, p) == (e, Ok::<ManifestView, ErrorView>(now))
            &&& shiftable(e, to, from)
            &&& forall|i: int|
                0 <= i < names.len() ==> plain_name(#[trigger] y.installed[i]) && pak_number(
                    y.installed[i],
                ) is Some && is_file_at(e, to[i]) && e[to[i]] == d[from[i]]
            &&& forall|q: PathView|
                is_file_at(d, q) && !from.contains(q) && q != manifest_path(p)
                    && q != manifest_temp_path(p) ==> #[trigger] same_at(d, e, q)
            &&& forall|q: PathView| #[trigger]
                e.contains_key(q) && q.len() > p.len() ==> to.contains(q) || q == manifest_path(p)
                    || same_at(d, e, q)
        }),
{
    let names = prefixed_names(d, b.path, x.id);
    let original = without_prefixes(x.id, names);
    let n = names.len() as int;
    let p = b.path;
    let e = files_installed(d, b, x, names).0;
    let before = loaded(d, p).1->Ok_0;
    let target = chosen_shard(d, b, None, names.len())->Ok_0;
    let dir = shard_dir_of(b, target);
    super::reorder::law_chosen_shard_has_room(d, b, names.len());
    lemma_shard_dir(b, target);
    lemma_disabled_files(d, b, x.id);
    lemma_loaded_version(d, p);
    let (d2, r) = enabled(d, p, dir, x.id, names);
    let out = r->Ok_0;
    lemma_enabled_whole(d, p, dir, x.id, names);
    let base = ready(d, p, dir);
    let from = places(p, names);
    let to = places(dir, out);
    lemma_shifted(base, from, to, n);
    let now = marked_enabled(before, x.id, out, original, x.install_order, target);
    lemma_saved(d2, p, now);
    lemma_save_keeps(d2, p, now);
    lemma_dirs_there(d2, p);
    let main = manifest_path(p);
    let temp = manifest_temp_path(p);
    assert(y == installed_mod(x, out, original));
    assert(e == saved(d2, p, now).0);
    assert(e == d2.remove(temp).insert(main, fresh_manifest(now)));
    assert(main.last() == MANIFEST_FILENAME@);
    assert(temp.last() == MANIFEST_TEMP_FILENAME@);
    assert forall|i: int| 0 <= i < n implies plain_name(#[trigger] out[i]) && is_file_at(e, to[i])
        && e[to[i]] == d[from[i]] && !e.contains_key(from[i]) && to[i] == dir.push(out[i])
        && from[i] == p.push(names[i]) by {
        lemma_not_the_manifest(out[i]);
        lemma_not_the_manifest(names[i]);
        assert(to[i] == dir.push(out[i]));
        assert(from[i] == p.push(names[i]));
        assert(to[i].last() == out[i]);
        assert(from[i].last() == names[i]);
        assert(is_file_at(d, p.push(names[i])));
    }
    assert(shiftable(e, to, from)) by {
        assert forall|i: int| 0 <= i < n implies e.contains_key(#[trigger] to[i]) by {
            assert(plain_name(out[i]));
        }
        assert forall|i: int| 0 <= i < n implies !e.contains_key(#[trigger] from[i]) by {
            assert(plain_name(out[i]));
        }
    }
    assert forall|q: PathView|
        is_file_at(d, q) && !from.contains(q) && q != main && q != temp implies #[trigger] same_at(
        d,
        e,
        q,
    ) by {
        assert forall|i: int| 0 <= i < n implies #[trigger] from[i] != q by {
            assert(from.contains(from[i]));
        }
        assert forall|i: int| 0 <= i < n implies #[trigger] to[i] != q by {
            assert(!base.contains_key(to[i]));
        }
        assert(same_at(base, d2, q));
    }
    assert forall|q: PathView| #[trigger] e.contains_key(q) && q != main && !to.contains(
        q,
    ) implies same_at(base, e, q) by {
        assert forall|i: int| 0 <= i < n implies #[trigger] from[i] != q by {
            assert(plain_name(out[i]));
        }
        assert forall|i: int| 0 <= i < n implies #[trigger] to[i] != q by {
            assert(to.contains(to[i]));
        }
        assert(same_at(base, d2, q));
    }
    assert forall|q: PathView| #[trigger] e.contains_key(q) && q.len() > p.len() implies to.contains(
        q,
    ) || q == main || same_at(d, e, q) by {
        if !to.contains(q) && q != main {
            assert(same_at(base, e, q));
            assert(!q.is_prefix_of(dir));
        }
    }
    assert(plain_tree(e)) by {
        reveal_strlit(".dmm.json");
        reveal_strlit(".");
        reveal_strlit("..");
        assert forall|q: PathView| #[trigger] e.contains_key(q) implies plain_name(q.last()) by {
            if to.contains(q) {
                let i = choose|i: int| 0 <= i < to.len() && to[i] == q;
                assert(plain_name(out[i]));
                assert(to[i].last() == out[i]);
            } else if q != main {
                assert(same_at(base, e, q));
                if !d.contains_key(q) {
                    lemma_new_dirs_plain(d, b, target, q);
                }
            }
        }
    }
    assert(nothing_staged(e, p)) by {
        lemma_finite_has_order::<TreePath, NodeView>(d);
        lemma_names_in(d, p);
        assert forall|name: Seq<char>| #[trigger] is_dir_at(e, p.push(name)) implies is_dir_at(
            d,
            p.push(name),
        ) && names_in(d, p).contains(name) by {
            let q = p.push(name);
            assert(e.contains_key(q));
            if to.contains(q) {
                let i = choose|i: int| 0 <= i < to.len() && to[i] == q;
                assert(plain_name(out[i]));
            }
        }
    }
    law_load_returns_what_save_wrote(d2, p, now);
    assert(p != main && p != temp) by {
        assert(main.len() == p.len() + 1);
        assert(temp.len() == p.len() + 1);
    }
}

/// An installed mod is recorded as enabled, under the names its files have now, and
/// they are there, with the contents they had. No other file is touched but the
/// manifest.
pub proof fn law_installed_mods_are_recorded(
    d: DiskView,
    m: ManagerView,
    b: BaseView,
    x: ModView,
    folder: Option<Seq<char>>,
    y: ModView,
)
    requires
        profile_base(m.game_path, folder) == Ok::<BaseView, ErrorView>(b),
        is_dir_at(d, b.path),
        installable(d, b, x.id),
        x.install_order is None,
        mod_installed(d, m, x, folder).2 == Ok::<ModView, ErrorView>(y),
    ensures
        ({
            let e = mod_installed(d, m, x, folder).0;
            let names = prefixed_names(d, b.path, x.id);
            let target = chosen_shard(d, b, None, names.len())->Ok_0;
            let before = loaded(d, b.path).1->Ok_0;
            let now = marked_enabled(before, x.id, y.installed, y.original, None, target);
            &&& valid_shard(target)
            &&& y.id == x.id
            &&& y.installed.len() == names.len()
            &&& y.original == without_prefixes(x.id, names)
            &&& exists_at(e, manifest_path(b.path))
            &&& e[manifest_path(b.path)] == fresh_manifest(now)
            &&& forall|i: int|
                0 <= i < names.len() ==> {
                    let place = shard_dir_of(b, target).push(#[trigger] y.installed[i]);
                    &&& e.contains_key(place)
                    &&& e[place] == d[b.path.push(names[i])]
                    &&& !exists_at(e, b.path.push(names[i]))
                }
            &&& forall|q: PathView|
                is_file_at(d, q) && !places(b.path, names).contains(q) && q != manifest_path(b.path)
                    && q != manifest_temp_path(b.path) ==> #[trigger] same_at(d, e, q)
        }),
{
    lemma_base_of_profile(m, folder, b);
    lemma_files_recorded(d, b, x, y);
    let names = prefixed_names(d, b.path, x.id);
    let target = chosen_shard(d, b, None, names.len())->Ok_0;
    let e = mod_installed(d, m, x, folder).0;
    let from = places(b.path, names);
    let to = places(shard_dir_of(b, target), y.installed);
    assert forall|i: int| 0 <= i < names.len() implies {
        let place = shard_dir_of(b, target).push(#[trigger] y.installed[i]);
        &&& e.contains_key(place)
        &&& e[place] == d[b.path.push(names[i])]
        &&& !exists_at(e, b.path.push(names[i]))
    } by {
        assert(to[i] == shard_dir_of(b, target).push(y.installed[i]));
        assert(from[i] == b.path.push(names[i]));
    }
}

pub proof fn lemma_base_of_profile(m: ManagerView, folder: Option<Seq<char>>, b: BaseView)
    requires
        profile_base(m.game_path, folder) == Ok::<BaseView, ErrorView>(b),
    ensures
        crate::shard::base_ok(b),
        base_of(b.path, true) == Some(b),
        base_of(b.path, false) is Some,
{
    let g = m.game_path->0;
    let p = match folder {
        Some(f) => super::addons_root(g).push(f),
        None => super::addons_root(g),
    };
    lemma_base_ok(p, true);
}

/// The manifest that is read is a current one.
proof fn lemma_loaded_version(d: DiskView, p: PathView)
    requires
        loaded(d, p).1 is Ok,
    ensures
        loaded(d, p).1->Ok_0.version == CURRENT_MANIFEST_VERSION,
{
}

/// Writing a manifest over one that is there succeeds.
proof fn lemma_can_save(d: DiskView, p: PathView, m: ManifestView)
    requires
        rooted(d),
        is_dir_at(d, p),
        is_file_at(d, manifest_path(p)),
        !exists_at(d, manifest_temp_path(p)),
        path_parent(p) is Some,
    ensures
        saved(d, p, m).1 is Ok,
{
    let temp = manifest_temp_path(p);
    let main = manifest_path(p);
    lemma_dirs_there(d, p);
    assert(temp.drop_last() =~= p);
    assert(main.drop_last() =~= p);
    assert(p.len() > 0);
    let d1 = d.insert(temp, fresh_manifest(m));
    assert(temp != p) by {
        assert(temp.len() == p.len() + 1);
    }
    assert(main != temp);
    assert(rename_op(d1, temp, main) == OpView::Move(temp, main));
    assert(can_rename(d1, temp, main));
}

/// Uninstalling a mod whose files stand as the manifest records brings them back under
/// the names that they had, and touches no other file but the manifest.
pub proof fn lemma_uninstalled(
    e: DiskView,
    b: BaseView,
    later: ManagerView,
    folder: Option<Seq<char>>,
    id: Seq<char>,
    vpks: Seq<Seq<char>>,
    now: ManifestView,
    names: Seq<Seq<char>>,
)
    requires
        profile_base(later.game_path, folder) == Ok::<BaseView, ErrorView>(b),
        rooted(e),
        e.dom().finite(),
        is_dir_at(e, b.path),
        is_file_at(e, manifest_path(b.path)),
        !exists_at(e, manifest_temp_path(b.path)),
        loaded(e, b.path) == (e, Ok::<ManifestView, ErrorView>(now)),
        now.mods.contains_key(id),
        valid_shard(now.mods[id].shard),
        names.len() > 0,
        now.mods[id].current.len() == names.len(),
        now.mods[id].original.len() == names.len(),
        shiftable(
            e,
            places(shard_dir_of(b, now.mods[id].shard), now.mods[id].current),
            places(b.path, names),
        ),
        forall|i: int|
            0 <= i < names.len() ==> plain_name(#[trigger] now.mods[id].current[i]) && pak_number(
                now.mods[id].current[i],
            ) is Some && is_file_at(
                e,
                shard_dir_of(b, now.mods[id].shard).push(now.mods[id].current[i]),
            ),
        forall|i: int|
            0 <= i < names.len() ==> #[trigger] names[i] == prefixed(id, now.mods[id].original[i])
                && plain_name(names[i]) && vpk_name(names[i]),
    ensures
        ({
            let (f, repo, r) = mod_uninstalled(e, later, id, vpks, folder);
            let to = places(shard_dir_of(b, now.mods[id].shard), now.mods[id].current);
            let from = places(b.path, names);
            &&& r == Ok::<(), ErrorView>(())
            &&& forall|i: int| 0 <= i < names.len() ==> !exists_at(f, #[trigger] to[i])
            &&& forall|i: int|
                0 <= i < names.len() ==> f.contains_key(#[trigger] from[i]) && f[from[i]]
                    == e[to[i]]
            &&& forall|q: PathView|
                is_file_at(e, q) && !to.contains(q) && q != manifest_path(b.path)
                    ==> #[trigger] same_at(e, f, q)
            &&& mods_on_record(f, b.path) == marked_disabled(
                now,
                id,
                names,
                now.mods[id].original,
            ).mods
        }),
{
    let p = b.path;
    let n = names.len() as int;
    let out = now.mods[id].current;
    let original = now.mods[id].original;
    let target = now.mods[id].shard;
    let dir = shard_dir_of(b, target);
    let main = manifest_path(p);
    let temp = manifest_temp_path(p);
    let from = places(p, names);
    let to = places(dir, out);
    lemma_base_of_profile(later, folder, b);
    lemma_shard_dir(b, target);
    assert(names_or(original, out) == original);
    assert(main.last() == MANIFEST_FILENAME@);
    assert(temp.last() == MANIFEST_TEMP_FILENAME@);
    assert forall|i: int| 0 <= i < n implies is_file_at(e, #[trigger] to[i]) && to[i] == dir.push(
        out[i],
    ) && to[i] != main && to[i] != temp && to[i] != p by {
        assert(plain_name(out[i]));
        lemma_not_the_manifest(out[i]);
        assert(to[i].last() == out[i]);
        assert(to[i].len() == p.len() + 1);
    }
    assert forall|i: int| 0 <= i < n implies from[i] == p.push(names[i]) && #[trigger] from[i]
        != main && from[i] != temp && from[i] != p by {
        assert(names[i] == prefixed(id, original[i]));
        lemma_not_the_manifest(names[i]);
        assert(from[i].last() == names[i]);
        assert(from[i].len() == p.len() + 1);
    }
    lemma_disabled_whole(e, dir, p, id, out, original, names, MissingVpkPolicy::Reconcile);
    let f1 = shifted(e, to, from, n);
    lemma_shifted(e, to, from, n);
    let gone = marked_disabled(now, id, names, original);
    assert(same_at(e, f1, main));
    assert(same_at(e, f1, temp));
    assert(same_at(e, f1, p));
    assert(path_parent(p) is Some) by {
        assert(p.len() > 1);
    }
    lemma_can_save(f1, p, gone);
    lemma_saved(f1, p, gone);
    lemma_dirs_there(f1, p);
    let f2 = saved(f1, p, gone).0;
    lemma_pruned_files(f2, b, MAX_SHARDS as nat);
    let f = pruned_shards(f2, b);
    assert(shard_of_mod(now, id) == target);
    assert(files_to_disable(now, later.repo, id, vpks) == (ToDisable::Files {
        installed: out,
        original,
    }));
    assert(mod_uninstalled(e, later, id, vpks, folder).0 == f);
    assert(is_file_at(f2, main));
    assert(same_at(f2, f, main));
    assert forall|i: int| 0 <= i < n implies !exists_at(f, #[trigger] to[i]) by {
        assert(!f1.contains_key(to[i]));
        assert(!f2.contains_key(to[i]));
        if f.contains_key(to[i]) {
            assert(same_at(f2, f, to[i]));
        }
    }
    assert forall|i: int| 0 <= i < n implies f.contains_key(#[trigger] from[i]) && f[from[i]]
        == e[to[i]] by {
        assert(f1[from[i]] == e[to[i]]);
        assert(is_file_at(e, to[i]));
        assert(is_file_at(f2, from[i]));
        assert(same_at(f2, f, from[i]));
    }
    assert forall|q: PathView| is_file_at(e, q) && !to.contains(q) && q != main implies
        #[trigger] same_at(e, f, q) by {
        assert forall|i: int| 0 <= i < n implies #[trigger] from[i] != q by {
            assert(!e.contains_key(from[i]));
        }
        assert forall|i: int| 0 <= i < n implies #[trigger] to[i] != q by {
            assert(to.contains(to[i]));
        }
        assert(same_at(e, f1, q));
        assert(is_file_at(f2, q));
        assert(same_at(f2, f, q));
    }
}

/// Uninstalling undoes installing: it succeeds, the files of the mod are back under
/// the names they had and with the contents they had, and every file of the profile
/// but the manifest is as it was.
pub proof fn law_uninstalling_undoes_installing(
    d: DiskView,
    m: ManagerView,
    b: BaseView,
    x: ModView,
    folder: Option<Seq<char>>,
    y: ModView,
    later: ManagerView,
    vpks: Seq<Seq<char>>,
)
    requires
        profile_base(m.game_path, folder) == Ok::<BaseView, ErrorView>(b),
        is_dir_at(d, b.path),
        installable(d, b, x.id),
        x.install_order is None,
        mod_installed(d, m, x, folder).2 == Ok::<ModView, ErrorView>(y),
        later.game_path == m.game_path,
    ensures
        ({
            let e = mod_installed(d, m, x, folder).0;
            let names = prefixed_names(d, b.path, x.id);
            let target = chosen_shard(d, b, None, names.len())->Ok_0;
            let (f, repo, r) = mod_uninstalled(e, later, x.id, vpks, folder);
            &&& r == Ok::<(), ErrorView>(())
            &&& forall|i: int|
                0 <= i < names.len() ==> !exists_at(
                    f,
                    shard_dir_of(b, target).push(#[trigger] y.installed[i]),
                )
            &&& forall|q: PathView|
                is_file_at(d, q) && q != manifest_path(b.path) && q != manifest_temp_path(b.path)
                    ==> #[trigger] same_at(d, f, q)
        }),
{
    lemma_base_of_profile(m, folder, b);
    lemma_files_recorded(d, b, x, y);
    let names = prefixed_names(d, b.path, x.id);
    let original = without_prefixes(x.id, names);
    let n = names.len() as int;
    let p = b.path;
    let e = mod_installed(d, m, x, folder).0;
    let target = chosen_shard(d, b, None, names.len())->Ok_0;
    let dir = shard_dir_of(b, target);
    let from = places(p, names);
    let to = places(dir, y.installed);
    let now = marked_enabled(
        loaded(d, p).1->Ok_0,
        x.id,
        y.installed,
        original,
        x.install_order,
        target,
    );
    lemma_disabled_files(d, b, x.id);
    assert forall|i: int| 0 <= i < n implies plain_name(#[trigger] now.mods[x.id].current[i])
        && pak_number(now.mods[x.id].current[i]) is Some && is_file_at(
        e,
        dir.push(now.mods[x.id].current[i]),
    ) by {
        assert(now.mods[x.id].current[i] == y.installed[i]);
        assert(to[i] == dir.push(y.installed[i]));
    }
    lemma_uninstalled(e, b, later, folder, x.id, vpks, now, names);
    let f = mod_uninstalled(e, later, x.id, vpks, folder).0;
    assert forall|i: int| 0 <= i < n implies !exists_at(f, dir.push(#[trigger] y.installed[i])) by {
        assert(to[i] == dir.push(y.installed[i]));
    }
    assert forall|q: PathView|
        is_file_at(d, q) && q != manifest_path(p) && q != manifest_temp_path(
            p,
        ) implies #[trigger] same_at(d, f, q) by {
        if from.contains(q) {
            let i = choose|i: int| 0 <= i < from.len() && from[i] == q;
            assert(plain_name(y.installed[i]));
            assert(e[to[i]] == d[from[i]]);
        } else {
            assert(same_at(d, e, q));
            assert(!to.contains(q)) by {
                if to.contains(q) {
                    let i = choose|i: int| 0 <= i < to.len() && to[i] == q;
                    lemma_places_were_free(d, b, x, y, i);
                }
            }
            assert(same_at(e, f, q));
        }
    }
}

/// The places that enabled files get were free.
pub proof fn lemma_places_were_free(d: DiskView, b: BaseView, x: ModView, y: ModView, i: int)
    requires
        base_ok(b),
        is_dir_at(d, b.path),
        installable(d, b, x.id),
        files_installed(d, b, x, prefixed_names(d, b.path, x.id)).1 == Ok::<ModView, ErrorView>(y),
        0 <= i < y.installed.len(),
    ensures
        ({
            let names = prefixed_names(d, b.path, x.id);
            let target = chosen_shard(d, b, None, names.len())->Ok_0;
            !d.contains_key(places(shard_dir_of(b, target), y.installed)[i])
        }),
{
    let names = prefixed_names(d, b.path, x.id);
    let target = chosen_shard(d, b, None, names.len())->Ok_0;
    let dir = shard_dir_of(b, target);
    lemma_disabled_files(d, b, x.id);
    let out = enabled(d, b.path, dir, x.id, names).1->Ok_0;
    lemma_enabled_whole(d, b.path, dir, x.id, names);
    assert(y.installed == out);
    assert(!ready(d, b.path, dir).contains_key(places(dir, out)[i]));
}

/// Writing a manifest keeps everything in a directory.
pub proof fn lemma_save_keeps(d: DiskView, p: PathView, m: ManifestView)
    requires
        rooted(d),
        d.dom().finite(),
        saved(d, p, m).1 is Ok,
    ensures
        rooted(saved(d, p, m).0),
        saved(d, p, m).0.dom().finite(),
{
    let temp = manifest_temp_path(p);
    let main = manifest_path(p);
    crate::disk::lemma_with_dirs(d, p);
    let d1 = with_dirs(d, p);
    law_changes_keep_the_tree_rooted(d1, OpView::Write(temp, m));
    let d2 = d1.insert(temp, fresh_manifest(m));
    law_changes_keep_the_tree_rooted(d2, rename_op(d2, temp, main));
}

} // verus!
