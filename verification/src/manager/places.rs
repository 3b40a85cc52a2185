//! Where the profiles of a game lie, and what is kept there.
use super::{profile_base, safe_folder};
use super::lifecycle::files_found;
use crate::disk::{
    exists_at, folder, is_dir_at, is_file_at, lemma_names_in, names_in, same_at, DiskView,
    NodeView,
};
use crate::error::ErrorView;
use crate::path::{lemma_join_plain, plain_name, PathView, TreePath};
use crate::profiles::vpks::access_fault;
use crate::shard::{base_ok, last_addons, shard_dir_of, valid_shard, BaseView, MAX_SHARDS};
use crate::table::lemma_finite_has_order;
use crate::text::{dec, starts_with};
use crate::vpk_manager::copying::all_copied;
use crate::vpk_manager::operations::prefixed_names;
use crate::vpk_manager::reorder::{pruned_shards, pruned_to};
use crate::vpk_manager::setting_aside::{lemma_pruned_files, lemma_shard_dir};
use vstd::prelude::*;

verus! {

/// The default profile of a game is its addons directory, and any other one a directory of one
/// plain name in it. A name that is a path is refused, and without a game there is none.
pub proof fn law_profiles_lie_among_the_addons(game: PathView, f: Seq<char>)
    requires
        f != "addons"@,
    ensures
        ({
            let citadel = game.push("game"@).push("citadel"@);
            let r = profile_base(Some(game), None);
            let s = profile_base(Some(game), Some(f));
            let safe = f.len() > 0 && !f.contains('/') && f != "."@ && f != ".."@ && !f.contains(
                '\\',
            );
            &&& r is Ok
            &&& r->Ok_0.path == citadel.push("addons"@)
            &&& r->Ok_0.citadel == citadel
            &&& r->Ok_0.folder is None
            &&& s is Ok <==> safe
            &&& s is Ok ==> {
                &&& s->Ok_0.path == citadel.push("addons"@).push(f)
                &&& s->Ok_0.citadel == citadel
                &&& s->Ok_0.folder == Some(seq![f])
            }
            &&& s is Err ==> s->Err_0 is InvalidInput
            &&& profile_base(None, Some(f)) == Err::<BaseView, ErrorView>(
                ErrorView::GamePathNotSet,
            )
        }),
{
    let citadel = game.push("game"@).push("citadel"@);
    let p = citadel.push("addons"@);
    let q = p.push(f);
    let k = citadel.len() as int;
    assert(last_addons(p, k + 1) == Some(k)) by {
        assert(p[k] == "addons"@);
    }
    assert(p.take(k) =~= citadel);
    assert(last_addons(q, k + 2) == Some(k)) by {
        assert(q[k + 1] == f);
        assert(q[k] == "addons"@);
        reveal_with_fuel(last_addons, 3);
    }
    assert(q.take(k) =~= citadel);
    assert(q.skip(k + 1) =~= seq![f]);
    assert(citadel.last() == "citadel"@);
}

/// The first shard of a profile is its own directory. The others are directories of the same
/// name in `addons2` to `addons10`, beside the addons.
pub proof fn law_shards_lie_beside_the_addons(game: PathView, f: Seq<char>, n: nat)
    requires
        2 <= n <= 10,
        f != "addons"@,
        safe_folder(f),
    ensures
        ({
            let citadel = game.push("game"@).push("citadel"@);
            let own = profile_base(Some(game), None)->Ok_0;
            let other = profile_base(Some(game), Some(f))->Ok_0;
            let root = citadel.push("addons"@ + dec(n));
            &&& shard_dir_of(own, 1) == citadel.push("addons"@)
            &&& shard_dir_of(other, 1) == citadel.push("addons"@).push(f)
            &&& shard_dir_of(own, n) == root
            &&& shard_dir_of(other, n) == root.push(f)
        }),
{
    law_profiles_lie_among_the_addons(game, f);
    let citadel = game.push("game"@).push("citadel"@);
    let root = citadel.push("addons"@ + dec(n));
    assert(root + Seq::<Seq<char>>::empty() =~= root);
    assert(root + seq![f] =~= root.push(f));
}

/// The files of a mod are its disabled ones in the profile. If it has none there and is a local
/// mod, they are copied from where its files are kept.
pub proof fn law_local_mods_come_from_the_store(
    d: DiskView,
    store: PathView,
    b: BaseView,
    id: Seq<char>,
)
    requires
        is_dir_at(d, b.path),
        plain_name(id),
    ensures
        ({
            let kept = store.push(id).push("files"@);
            let names = prefixed_names(d, b.path, id);
            let r = files_found(d, store, b, id);
            &&& names.len() > 0 ==> r == (d, Ok::<Seq<Seq<char>>, ErrorView>(names))
            &&& names.len() == 0 && starts_with(id, "local-"@) && exists_at(d, kept) ==> r
                == all_copied(d, kept, b.path, id)
            &&& names.len() == 0 && !(starts_with(id, "local-"@) && exists_at(d, kept)) ==> r == (
                d,
                Ok::<Seq<Seq<char>>, ErrorView>(names),
            )
        }),
{
    lemma_join_plain(store, id);
}

/// A file may be touched just where it is found, below the directory of its shard, once links
/// are followed.
pub proof fn law_files_are_touched_in_their_shard(
    path: PathView,
    real_dir: Option<PathView>,
    real_path: Option<PathView>,
)
    ensures
        access_fault(path, real_dir, real_path) is None <==> real_dir is Some && real_path is Some
            && real_dir->0.len() <= real_path->0.len() && real_path->0.take(
            real_dir->0.len() as int,
        ) == real_dir->0,
        access_fault(path, real_dir, real_path) is Some ==> access_fault(
            path,
            real_dir,
            real_path,
        )->0 is UnauthorizedPath,
{
    if real_dir is Some && real_path is Some {
        let a = real_dir->0;
        let b = real_path->0;
        if a.is_prefix_of(b) {
            assert(b.take(a.len() as int) =~= a);
        }
    }
}

proof fn lemma_pruned_step(d: DiskView, b: BaseView, n: nat, k: nat)
    requires
        2 <= k <= n <= 10,
        exists_at(pruned_to(d, b, n), shard_dir_of(b, k)),
    ensures
        ({
            let was = pruned_to(d, b, (k - 1) as nat);
            let dir = shard_dir_of(b, k);
            exists_at(was, dir) && !(was[dir] == folder() && names_in(was, dir).len() == 0)
        }),
    decreases n,
{
    if k < n {
        let before = pruned_to(d, b, (n - 1) as nat);
        assert(exists_at(before, shard_dir_of(b, k)));
        lemma_pruned_step(d, b, (n - 1) as nat, k);
    }
}

/// Dropping empty shards keeps every file, and adds nothing. The directory of a shard other than
/// the first is gone where nothing stands in it.
pub proof fn law_only_empty_shards_are_dropped(d: DiskView, b: BaseView, k: nat)
    requires
        d.dom().finite(),
        2 <= k <= 10,
    ensures
        forall|q: PathView| is_file_at(d, q) ==> #[trigger] same_at(d, pruned_shards(d, b), q),
        forall|q: PathView| #[trigger]
            exists_at(pruned_shards(d, b), q) ==> same_at(d, pruned_shards(d, b), q),
        d[shard_dir_of(b, k)] == folder() && (forall|name: Seq<char>|
            !d.contains_key(#[trigger] shard_dir_of(b, k).push(name))) ==> !exists_at(
            pruned_shards(d, b),
            shard_dir_of(b, k),
        ),
{
    lemma_pruned_files(d, b, MAX_SHARDS as nat);
    let dir = shard_dir_of(b, k);
    if exists_at(pruned_shards(d, b), dir) && d[dir] == folder() && (forall|name: Seq<char>|
        !d.contains_key(#[trigger] dir.push(name))) {
        lemma_pruned_step(d, b, MAX_SHARDS as nat, k);
        let was = pruned_to(d, b, (k - 1) as nat);
        lemma_pruned_files(d, b, (k - 1) as nat);
        assert(same_at(d, was, dir));
        assert(was.dom().subset_of(d.dom())) by {
            assert forall|q: PathView| was.dom().contains(q) implies d.dom().contains(q) by {
                assert(same_at(d, was, q));
            }
        }
        vstd::set_lib::lemma_len_subset(was.dom(), d.dom());
        lemma_finite_has_order::<TreePath, NodeView>(was);
        lemma_names_in(was, dir);
        let names = names_in(was, dir);
        if names.len() > 0 {
            assert(names.contains(names[0]));
            assert(was.dom().contains(dir.push(names[0])));
            assert(d.contains_key(dir.push(names[0])));
        }
    }
}

/// No shard but the first has an empty directory.
pub open spec fn no_empty_shard(d: DiskView, b: BaseView) -> bool {
    forall|k: nat|
        2 <= k <= 10 && d.contains_key(#[trigger] shard_dir_of(b, k)) && d[shard_dir_of(b, k)]
            == folder() ==> exists|name: Seq<char>| #[trigger]
            d.contains_key(shard_dir_of(b, k).push(name))
}

proof fn lemma_finite_before(d: DiskView, b: BaseView, n: nat)
    requires
        pruned_to(d, b, n).dom().finite(),
    ensures
        d.dom().finite(),
    decreases n,
{
    if n > 1 {
        let was = pruned_to(d, b, (n - 1) as nat);
        let dir = shard_dir_of(b, n);
        if was.contains_key(dir) {
            assert(was.remove(dir).dom().insert(dir) =~= was.dom());
        }
        lemma_finite_before(d, b, (n - 1) as nat);
    }
}

/// Once empty shards are dropped, none is left.
pub proof fn law_no_empty_shard_is_left(d: DiskView, b: BaseView)
    requires
        base_ok(b),
        pruned_shards(d, b).dom().finite(),
    ensures
        no_empty_shard(pruned_shards(d, b), b),
{
    let e = pruned_shards(d, b);
    lemma_finite_before(d, b, MAX_SHARDS as nat);
    lemma_pruned_files(d, b, MAX_SHARDS as nat);
    assert forall|k: nat|
        2 <= k <= 10 && e.contains_key(#[trigger] shard_dir_of(b, k)) && e[shard_dir_of(b, k)]
            == folder() implies exists|name: Seq<char>| #[trigger]
        e.contains_key(shard_dir_of(b, k).push(name)) by {
        let dir = shard_dir_of(b, k);
        law_only_empty_shards_are_dropped(d, b, k);
        assert(same_at(d, e, dir));
        let name = choose|name: Seq<char>| #[trigger] d.contains_key(dir.push(name));
        assert(d.contains_key(dir.push(name)));
        lemma_shard_dir(b, k);
        assert forall|m: nat| valid_shard(m) implies #[trigger] shard_dir_of(b, m) != dir.push(
            name,
        ) by {
            lemma_shard_dir(b, m);
        }
        assert(same_at(d, e, dir.push(name)));
    }
}

} // verus!
