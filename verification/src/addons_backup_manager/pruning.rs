//! Which backups pruning keeps.
use super::{
    backup_dir_of, backup_info, backups_found, backups_listed, backups_pruned, folder_time,
    is_backup, newest_first, safe_backup_name, BackupView,
};
use crate::disk::{
    is_dir_at, lemma_filter_distinct, lemma_filter_members, lemma_filter_push, lemma_names_in,
    names_in, same_at, DiskView, NodeView,
};
use crate::order::{law_every_list_can_be_sorted, place_before, sorted_places};
use crate::path::{PathView, TreePath};
use crate::table::lemma_finite_has_order;
use vstd::prelude::*;

verus! {

/// The backups that are listed are those that are there, each once, and the newer
/// come before the older.
pub proof fn law_backups_are_listed_newest_first(
    d: DiskView,
    dir: PathView,
    times: Seq<(String, u64)>,
)
    requires
        d.dom().finite(),
    ensures
        forall|i: int, j: int|
            0 <= i < j < backups_listed(d, dir, times).len() ==> (#[trigger] backups_listed(
                d,
                dir,
                times,
            )[i]).created_at >= (#[trigger] backups_listed(d, dir, times)[j]).created_at,
        forall|i: int, j: int|
            0 <= i < j < backups_listed(d, dir, times).len() ==> (#[trigger] backups_listed(
                d,
                dir,
                times,
            )[i]).file_name != (#[trigger] backups_listed(d, dir, times)[j]).file_name,
        forall|i: int|
            0 <= i < backups_listed(d, dir, times).len() ==> is_backup(
                d,
                dir,
                (#[trigger] backups_listed(d, dir, times)[i]).file_name,
            ),
        forall|n: Seq<char>| #[trigger]
            is_backup(d, dir, n) ==> backups_listed(d, dir, times).contains(
                backup_info(d, dir, n, folder_time(times, n)),
            ),
{
    let found = backups_found(d, dir, times);
    let keys = found.map_values(|b: BackupView| newest_first(b));
    let list = backups_listed(d, dir, times);
    let places = sorted_places(keys);
    law_every_list_can_be_sorted(keys);
    let names = names_in(d, dir);
    let pred = |n: Seq<char>| is_backup(d, dir, n);
    let kept = names.filter(pred);
    lemma_finite_has_order::<TreePath, NodeView>(d);
    lemma_names_in(d, dir);
    lemma_filter_members(names, pred);
    names.lemma_filter_len(pred);
    lemma_filter_distinct(names, pred);
    assert forall|i: int| 0 <= i < list.len() implies 0 <= #[trigger] places[i] < found.len()
        && list[i] == found[places[i]] by {
        assert(places.contains(places[i]));
    }
    assert forall|i: int, j: int| 0 <= i < j < list.len() implies (#[trigger] list[i]).created_at
        >= (#[trigger] list[j]).created_at && list[i].file_name != list[j].file_name by {
        let a = places[i];
        let b = places[j];
        assert(place_before(keys, a, b));
        assert(keys[a] == newest_first(found[a]));
        assert(keys[b] == newest_first(found[b]));
        assert(a != b);
        assert(found[a].file_name == kept[a]);
        assert(found[b].file_name == kept[b]);
    }
    assert forall|i: int| 0 <= i < list.len() implies is_backup(
        d,
        dir,
        (#[trigger] list[i]).file_name,
    ) by {
        let a = places[i];
        assert(kept.contains(kept[a]));
        assert(found[a].file_name == kept[a]);
    }
    assert forall|n: Seq<char>| #[trigger] is_backup(d, dir, n) implies list.contains(
        backup_info(d, dir, n, folder_time(times, n)),
    ) by {
        assert(names.contains(n));
        assert(kept.contains(n));
        let a = choose|a: int| 0 <= a < kept.len() && kept[a] == n;
        assert(places.contains(a));
        let i = choose|i: int| 0 <= i < places.len() && places[i] == a;
        assert(list[i] == found[a]);
    }
}

/// `q` is one of the backups from position `from` to `k` that can be deleted, or
/// stands below one.
pub open spec fn in_pruned(
    dir: PathView,
    list: Seq<BackupView>,
    from: int,
    k: int,
    q: PathView,
) -> bool {
    exists|i: int|
        from <= i < k && safe_backup_name((#[trigger] list[i]).file_name) && dir.push(
            list[i].file_name,
        ).is_prefix_of(q)
}

proof fn lemma_pruned(d: DiskView, game: PathView, list: Seq<BackupView>, from: int, k: int)
    requires
        0 <= from <= k <= list.len(),
        forall|i: int, j: int|
            0 <= i < j < list.len() ==> (#[trigger] list[i]).file_name != (
            #[trigger] list[j]).file_name,
        forall|i: int|
            0 <= i < list.len() ==> is_dir_at(
                d,
                backup_dir_of(game).push((#[trigger] list[i]).file_name),
            ),
    ensures
        ({
            let (e, n) = backups_pruned(d, Some(game), list, from, k);
            let dir = backup_dir_of(game);
            &&& n == list.subrange(from, k).filter(
                |b: BackupView| safe_backup_name(b.file_name),
            ).len()
            &&& forall|q: PathView|
                !in_pruned(dir, list, from, k, q) ==> #[trigger] same_at(d, e, q)
            &&& forall|i: int|
                from <= i < k && safe_backup_name((#[trigger] list[i]).file_name)
                    ==> !e.contains_key(dir.push(list[i].file_name))
        }),
    decreases k,
{
    let dir = backup_dir_of(game);
    let pred = |b: BackupView| safe_backup_name(b.file_name);
    if k == from {
        reveal(Seq::filter);
        assert(list.subrange(from, k) =~= Seq::<BackupView>::empty());
    } else {
        lemma_pruned(d, game, list, from, k - 1);
        let (d1, n1) = backups_pruned(d, Some(game), list, from, k - 1);
        let (e, n) = backups_pruned(d, Some(game), list, from, k);
        let name = list[k - 1].file_name;
        let p = dir.push(name);
        assert(list.subrange(from, k) =~= list.subrange(from, k - 1).push(list[k - 1]));
        lemma_filter_push(list.subrange(from, k - 1), list[k - 1], pred);
        assert(same_at(d, d1, p)) by {
            if in_pruned(dir, list, from, k - 1, p) {
                let i = choose|i: int|
                    from <= i < k - 1 && safe_backup_name((#[trigger] list[i]).file_name)
                        && dir.push(list[i].file_name).is_prefix_of(p);
                assert(dir.push(list[i].file_name) == p.take(p.len() as int));
                assert(p.take(p.len() as int) =~= p);
                assert(dir.push(list[i].file_name).last() == p.last());
                assert(list[i].file_name == list[k - 1].file_name);
            }
        }
        assert(is_dir_at(d1, p));
        assert(p =~= p.take(p.len() as int));
        assert forall|q: PathView| !in_pruned(dir, list, from, k, q) implies #[trigger] same_at(
            d,
            e,
            q,
        ) by {
            if in_pruned(dir, list, from, k - 1, q) {
                let i = choose|i: int|
                    from <= i < k - 1 && safe_backup_name((#[trigger] list[i]).file_name)
                        && dir.push(list[i].file_name).is_prefix_of(q);
                assert(from <= i < k);
            }
            assert(same_at(d, d1, q));
            if safe_backup_name(name) {
                assert(from <= k - 1 < k);
                assert(!p.is_prefix_of(q));
            }
        }
    }
}

/// Pruning keeps the newest `max` backups as they are. It deletes the others,
/// except those whose name does not stand for a backup and nothing else, and counts
/// what it deletes. Nothing but backups is touched.
pub proof fn law_pruning_keeps_the_newest(
    d: DiskView,
    game: PathView,
    times: Seq<(String, u64)>,
    max: int,
)
    requires
        d.dom().finite(),
        0 <= max <= backups_listed(d, backup_dir_of(game), times).len(),
    ensures
        ({
            let dir = backup_dir_of(game);
            let list = backups_listed(d, dir, times);
            let (e, n) = backups_pruned(d, Some(game), list, max, list.len() as int);
            &&& forall|i: int, q: PathView|
                0 <= i < max && dir.push((#[trigger] list[i]).file_name).is_prefix_of(q)
                    ==> #[trigger] same_at(d, e, q)
            &&& forall|i: int, j: int|
                0 <= i < max <= j < list.len() ==> (#[trigger] list[i]).created_at >= (
                #[trigger] list[j]).created_at
            &&& forall|j: int|
                max <= j < list.len() && safe_backup_name((#[trigger] list[j]).file_name)
                    ==> !e.contains_key(dir.push(list[j].file_name))
            &&& forall|q: PathView|
                !in_pruned(dir, list, max, list.len() as int, q) ==> #[trigger] same_at(d, e, q)
            &&& n == list.skip(max).filter(|b: BackupView| safe_backup_name(b.file_name)).len()
        }),
{
    let dir = backup_dir_of(game);
    let list = backups_listed(d, dir, times);
    let len = list.len() as int;
    law_backups_are_listed_newest_first(d, dir, times);
    assert forall|i: int| 0 <= i < list.len() implies is_dir_at(
        d,
        dir.push((#[trigger] list[i]).file_name),
    ) by {
        assert(is_backup(d, dir, list[i].file_name));
    }
    lemma_pruned(d, game, list, max, len);
    assert(list.skip(max) =~= list.subrange(max, len));
    let (e, n) = backups_pruned(d, Some(game), list, max, len);
    assert forall|i: int, q: PathView|
        0 <= i < max && dir.push((#[trigger] list[i]).file_name).is_prefix_of(q) implies
        #[trigger] same_at(d, e, q) by {
        if in_pruned(dir, list, max, len, q) {
            let j = choose|j: int|
                max <= j < len && safe_backup_name((#[trigger] list[j]).file_name) && dir.push(
                    list[j].file_name,
                ).is_prefix_of(q);
            let a = dir.push(list[i].file_name);
            let b = dir.push(list[j].file_name);
            assert(a == q.take(a.len() as int));
            assert(b == q.take(b.len() as int));
            assert(a.last() == b.last());
            assert(list[i].file_name != list[j].file_name);
        }
    }
}

} // verus!
