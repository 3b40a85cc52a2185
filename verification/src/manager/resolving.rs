//! Which files of a mod count, which shard it goes to, and what reordering a profile keeps.
use super::{profile_base, ManagerView, ModView};
use super::gameinfo::{migration_needed, shard_overfull};
use super::hydration::known_by_id;
use super::layout::{law_mods_load_in_their_order, lemma_recorded, may_load_before};
use super::ordered::{
    left_by, lemma_filter_all_pass, lemma_own_group, lemma_plain_base, lemma_recorded_after,
    reordering,
};
use super::reorder::{
    all_reconciled, chosen_shard, existing_names, first_number, last_active, lemma_last_active,
    ordered_groups, placements_recorded, profile_migrated, profile_reordered, reconciled,
    reorder_committed, resolved_vpks,
};
use super::requested_order::{files_load_before, lemma_repo_placed};
use crate::disk::{exists_at, lemma_filter_members, DiskView};
use crate::error::ErrorView;
use crate::manifest_store::loaded;
use crate::path::{base_name, lemma_join_plain, path_join, plain_name, PathView};
use crate::shard::{shard_dir_of, valid_shard, BaseView, MAX_SHARDS};
use crate::vpk_manager::naming::{enabled_count, has_out_of_range, pak_number};
use crate::vpk_manager::operations::file_names;
use crate::vpk_manager::packing::{lemma_placed_in_order, loads_before};
use crate::vpk_manager::reorder::reorder_staged;
use crate::vpk_manifest::{EntryView, ManifestView};
use vstd::prelude::*;

verus! {

// ---------------------------------------------------------------------------
// The files that count
// ---------------------------------------------------------------------------

/// Every name of a list stands in a directory.
pub open spec fn all_there(d: DiskView, dir: PathView, names: Seq<Seq<char>>) -> bool {
    forall|i: int| 0 <= i < names.len() ==> exists_at(d, dir.push(#[trigger] names[i]))
}

/// Plain names.
pub open spec fn all_plain(names: Seq<Seq<char>>) -> bool {
    forall|i: int| 0 <= i < names.len() ==> plain_name(#[trigger] names[i])
}

proof fn lemma_existing_names(d: DiskView, dir: PathView, names: Seq<Seq<char>>)
    requires
        all_plain(names),
    ensures
        file_names(names) == names,
        forall|n: Seq<char>| #[trigger]
            existing_names(d, dir, names).contains(n) <==> names.contains(n) && exists_at(
                d,
                dir.push(n),
            ),
        existing_names(d, dir, names).len() <= names.len(),
        existing_names(d, dir, names).len() == names.len() <==> all_there(d, dir, names),
{
    let pred = |n: Seq<char>| exists_at(d, path_join(dir, n));
    assert(file_names(names) =~= names) by {
        assert forall|i: int| 0 <= i < names.len() implies file_names(names)[i] == names[i] by {
            lemma_plain_base(names[i]);
        }
    }
    let kept = existing_names(d, dir, names);
    assert(kept == names.filter(pred));
    lemma_filter_members(names, pred);
    names.lemma_filter_len(pred);
    assert forall|n: Seq<char>| #[trigger] kept.contains(n) <==> names.contains(n) && exists_at(
        d,
        dir.push(n),
    ) by {
        if names.contains(n) {
            let i = choose|i: int| 0 <= i < names.len() && names[i] == n;
            assert(plain_name(names[i]));
            lemma_join_plain(dir, n);
        }
    }
    if all_there(d, dir, names) {
        assert forall|i: int| 0 <= i < names.len() implies pred(#[trigger] names[i]) by {
            lemma_join_plain(dir, names[i]);
        }
        lemma_filter_all_pass(names, pred);
    }
    if kept.len() == names.len() {
        lemma_all_kept(names, pred);
        assert forall|i: int| 0 <= i < names.len() implies exists_at(
            d,
            dir.push(#[trigger] names[i]),
        ) by {
            assert(pred(names[i]));
            lemma_join_plain(dir, names[i]);
        }
    }
}

proof fn lemma_all_kept<A>(s: Seq<A>, pred: spec_fn(A) -> bool)
    requires
        s.filter(pred).len() == s.len(),
    ensures
        forall|i: int| 0 <= i < s.len() ==> pred(#[trigger] s[i]),
    decreases s.len(),
{
    reveal(Seq::filter);
    if s.len() > 0 {
        let t = s.drop_last();
        t.lemma_filter_len(pred);
        lemma_all_kept(t, pred);
        assert forall|i: int| 0 <= i < s.len() implies pred(#[trigger] s[i]) by {
            if i < t.len() {
                assert(s[i] == t[i]);
            }
        }
    }
}

/// The files of a mod that count are those on record if all of them are there; else those that
/// the caller names if all of them are there; else those on record that are there; and if none
/// of them is, those of the caller that are there.
pub proof fn law_files_that_are_there_count(
    d: DiskView,
    dir: PathView,
    recorded: Seq<Seq<char>>,
    given: Seq<Seq<char>>,
)
    requires
        all_plain(recorded),
        all_plain(given),
    ensures
        ({
            let out = resolved_vpks(d, dir, recorded, given);
            &&& recorded.len() > 0 && all_there(d, dir, recorded) ==> out == recorded
            &&& !(recorded.len() > 0 && all_there(d, dir, recorded)) && given.len() > 0
                && all_there(d, dir, given) ==> out == given
            &&& !all_there(d, dir, recorded) && !(given.len() > 0 && all_there(d, dir, given)) && (
            exists|n: Seq<char>| #[trigger] recorded.contains(n) && exists_at(d, dir.push(n)))
                ==> forall|n: Seq<char>| #[trigger]
                out.contains(n) <==> recorded.contains(n) && exists_at(d, dir.push(n))
            &&& forall|i: int|
                0 <= i < out.len() ==> exists_at(d, dir.push(#[trigger] out[i])) && (
                recorded.contains(out[i]) || given.contains(out[i]))
            &&& out.len() == 0 ==> forall|n: Seq<char>| #[trigger]
                recorded.contains(n) || given.contains(n) ==> !exists_at(d, dir.push(n))
        }),
{
    lemma_existing_names(d, dir, recorded);
    lemma_existing_names(d, dir, given);
    let there = existing_names(d, dir, recorded);
    let other = existing_names(d, dir, given);
    let out = resolved_vpks(d, dir, recorded, given);
    assert forall|i: int| 0 <= i < out.len() implies exists_at(d, dir.push(#[trigger] out[i])) && (
    recorded.contains(out[i]) || given.contains(out[i])) by {
        if out == recorded {
            assert(recorded.contains(out[i]));
            if there.len() != recorded.len() {
                assert(out.contains(out[i]));
            }
        } else if out == given {
            assert(given.contains(out[i]));
            if other.len() != given.len() {
                assert(out.contains(out[i]));
            }
        } else {
            assert(out.contains(out[i]));
            assert(there.contains(out[i]) || other.contains(out[i]));
        }
    }
    if exists|n: Seq<char>| #[trigger] recorded.contains(n) && exists_at(d, dir.push(n)) {
        let n = choose|n: Seq<char>| #[trigger] recorded.contains(n) && exists_at(d, dir.push(n));
        assert(there.contains(n));
        assert(there.len() > 0);
    }
    if out.len() == 0 {
        assert forall|n: Seq<char>| #[trigger] recorded.contains(n) || given.contains(n) implies
            !exists_at(d, dir.push(n)) by {
            if exists_at(d, dir.push(n)) {
                assert(there.contains(n) || other.contains(n));
                assert(there.len() > 0 || other.len() > 0);
            }
        }
    }
}

/// A mod whose recorded files are all there is still recorded as it was. One of which no file
/// is there is recorded as disabled, without enabled files. Its order, its shard and its
/// original names stay in any case.
pub proof fn law_entries_follow_the_disk(d: DiskView, b: BaseView, e: EntryView)
    requires
        all_plain(e.current),
    ensures
        ({
            let dir = shard_dir_of(b, e.shard);
            let after = reconciled(d, b, e, Seq::empty());
            &&& after.order == e.order
            &&& after.shard == e.shard
            &&& after.original == e.original
            &&& e.enabled && e.current.len() > 0 && all_there(d, dir, e.current) ==> after.enabled
                && after.current == e.current
            &&& (forall|i: int|
                0 <= i < e.current.len() ==> !exists_at(d, dir.push(#[trigger] e.current[i])))
                ==> !after.enabled && after.current.len() == 0 && after.disabled == e.disabled
            &&& after.enabled ==> after.current.len() > 0
            &&& forall|i: int|
                0 <= i < after.current.len() ==> exists_at(
                    d,
                    dir.push(#[trigger] after.current[i]),
                )
        }),
{
    let none = Seq::<Seq<char>>::empty();
    let dir = shard_dir_of(b, e.shard);
    assert(all_plain(none));
    law_files_that_are_there_count(d, dir, e.current, none);
    let out = resolved_vpks(d, dir, e.current, none);
    if (forall|i: int|
        0 <= i < e.current.len() ==> !exists_at(d, dir.push(#[trigger] e.current[i]))) {
        if out.len() > 0 {
            assert(exists_at(d, dir.push(out[0])));
            assert(e.current.contains(out[0]));
            let i = choose|i: int| 0 <= i < e.current.len() && e.current[i] == out[0];
            assert(!exists_at(d, dir.push(e.current[i])));
        }
    }
}

/// Among its files the place of a mod is told by the one with the least number; a mod without
/// numbered files comes last.
pub proof fn law_the_least_number_tells_the_place(vpks: Seq<Seq<char>>, k: int)
    requires
        0 <= k <= vpks.len(),
        all_plain(vpks),
    ensures
        forall|i: int|
            0 <= i < k && pak_number(#[trigger] vpks[i]) is Some ==> first_number(vpks, k)
                <= pak_number(vpks[i])->0,
        first_number(vpks, k) == u32::MAX || exists|i: int|
            0 <= i < k && pak_number(#[trigger] vpks[i]) == Some(first_number(vpks, k)),
    decreases k,
{
    if k > 0 {
        law_the_least_number_tells_the_place(vpks, k - 1);
        lemma_plain_base(vpks[k - 1]);
        assert(base_name(vpks[k - 1]) == vpks[k - 1]);
        if pak_number(vpks[k - 1]) is Some {
            assert(pak_number(vpks[k - 1])->0 <= u32::MAX);
        }
        if first_number(vpks, k) != first_number(vpks, k - 1) {
            assert(pak_number(vpks[k - 1]) == Some(first_number(vpks, k)));
        } else if first_number(vpks, k - 1) != u32::MAX {
            let i = choose|i: int|
                0 <= i < k - 1 && pak_number(#[trigger] vpks[i]) == Some(
                    first_number(vpks, k - 1),
                );
            assert(pak_number(vpks[i]) == Some(first_number(vpks, k)));
        }
    }
}

// ---------------------------------------------------------------------------
// The shard of a mod
// ---------------------------------------------------------------------------

/// The last shard with enabled VPKs, or the first one.
pub open spec fn is_last(d: DiskView, b: BaseView, n: nat) -> bool {
    &&& valid_shard(n)
    &&& n == 1 || enabled_count(d, shard_dir_of(b, n)) > 0
    &&& forall|k: nat| n < k <= 10 ==> enabled_count(d, #[trigger] shard_dir_of(b, k)) == 0
}

/// A mod that is in no shard goes to the last one that holds enabled VPKs if its files fit
/// there, else to the next one. It is refused just where it has more files than a shard holds,
/// or does not fit in the last shard of all.
pub proof fn law_a_shard_is_chosen(d: DiskView, b: BaseView, needed: nat, last: nat)
    requires
        is_last(d, b, last),
    ensures
        ({
            let used = enabled_count(d, shard_dir_of(b, last));
            let r = chosen_shard(d, b, None, needed);
            &&& needed <= 99 && used + needed <= 99 ==> r == Ok::<nat, ErrorView>(last)
            &&& 0 < needed <= 99 && used + needed > 99 && last < 10 ==> r == Ok::<nat, ErrorView>(
                last + 1,
            )
            &&& needed > 99 || (0 < needed && used + needed > 99 && last == 10) ==> r is Err
                && r->Err_0 is ModInvalid
        }),
{
    lemma_last_active(d, b, MAX_SHARDS as nat);
    lemma_last_is(d, b, MAX_SHARDS as nat, last);
}

proof fn lemma_last_is(d: DiskView, b: BaseView, n: nat, last: nat)
    requires
        is_last(d, b, last),
        last <= n <= 10,
    ensures
        last_active(d, b, n) == last,
    decreases n,
{
    if last < n {
        assert(enabled_count(d, shard_dir_of(b, n)) == 0);
        lemma_last_is(d, b, (n - 1) as nat, last);
    }
}

/// A mod that is in a shard already stays there if its new files fit beside those of the other
/// mods.
pub proof fn law_mods_stay_in_their_shard(
    d: DiskView,
    b: BaseView,
    shard: nat,
    count: nat,
    needed: nat,
)
    requires
        needed <= 99,
        count <= enabled_count(d, shard_dir_of(b, shard)),
        enabled_count(d, shard_dir_of(b, shard)) - count + needed <= 99,
    ensures
        chosen_shard(d, b, Some((shard, count)), needed) == Ok::<nat, ErrorView>(shard),
{
}

// ---------------------------------------------------------------------------
// Reordering a whole profile
// ---------------------------------------------------------------------------

/// A tree in which nothing is left over, with the enabled files of mod `id` on record and there.
pub open spec fn can_be_reordered(
    d: DiskView,
    b: BaseView,
    m: ManagerView,
    now: ManifestView,
    id: Seq<char>,
) -> bool {
    let m1 = all_reconciled(d, b, now);
    let r = reorder_committed(d, b.path, m.repo, m1, ordered_groups(m1)).2;
    &&& loaded(d, b.path) == (d, Ok::<ManifestView, ErrorView>(now))
    &&& r is Ok ==> reordering(d, b, now, id, m.repo, r->Ok_0)
}

/// Reordering a profile keeps each of its mods: a mod with its files stays on record as enabled,
/// with its order, its original names and as many files as it had, and each of them holds what
/// it held before. If the mod is known, it is known with those files.
pub proof fn law_reordered_profiles_keep_each_mod(
    d: DiskView,
    m: ManagerView,
    folder: Option<Seq<char>>,
    b: BaseView,
    now: ManifestView,
    id: Seq<char>,
)
    requires
        profile_base(m.game_path, folder) == Ok::<BaseView, ErrorView>(b),
        can_be_reordered(d, b, m, now, id),
        ordered_groups(all_reconciled(d, b, now)).len() > 0,
        profile_reordered(d, m, folder).2 is Ok,
    ensures
        ({
            let (e, repo, _) = profile_reordered(d, m, folder);
            let after = loaded(e, b.path).1->Ok_0.mods;
            let old_dir = shard_dir_of(b, now.mods[id].shard);
            let dir = shard_dir_of(b, after[id].shard);
            &&& after.contains_key(id)
            &&& after[id].enabled
            &&& after[id].order == now.mods[id].order
            &&& after[id].original == now.mods[id].original
            &&& after[id].current.len() == now.mods[id].current.len()
            &&& forall|i: int|
                0 <= i < after[id].current.len() ==> {
                    let q = dir.push(#[trigger] after[id].current[i]);
                    e.contains_key(q) && e[q] == d[old_dir.push(now.mods[id].current[i])]
                }
            &&& known_by_id(m.repo) && m.repo.contains_key(id) ==> repo.contains_key(id) && repo[id]
                == (ModView { installed: after[id].current, ..m.repo[id] })
        }),
{
    let m1 = all_reconciled(d, b, now);
    let r = reorder_committed(d, b.path, m.repo, m1, ordered_groups(m1)).2;
    assert(profile_reordered(d, m, folder).0 == left_by(d, b, now, m.repo));
    lemma_recorded_after(d, b, now, id, m.repo, r->Ok_0);
    if known_by_id(m.repo) && m.repo.contains_key(id) {
        let placements = r->Ok_0;
        let groups = ordered_groups(m1);
        let k = placements.len() as int;
        let i = lemma_own_group(d, b, now, id);
        let (d1, staged) = reorder_staged(d, b.path, groups);
        lemma_placed_in_order(d1, b, groups, staged->Ok_0.0, placements);
        assert forall|a: int, c: int| 0 <= a < c < placements.len() implies (
        #[trigger] placements[a]).mod_id != (#[trigger] placements[c]).mod_id by {
            assert(placements[a].mod_id == groups[a].mod_id);
            assert(placements[c].mod_id == groups[c].mod_id);
        }
        assert(placements[i].mod_id == id);
        assert(m1.mods.contains_key(groups[i].mod_id));
        lemma_recorded(m1, placements, k, i);
        lemma_repo_placed(m.repo, placements, k);
        let repo = profile_reordered(d, m, folder).1;
        assert(repo.dom().contains(id)) by {
            assert(m.repo.dom().contains(id));
        }
    }
}

/// Of two mods of a reordered profile, all files of the one with the lesser order load before
/// those of the other; a mod with an order loads before one without.
pub proof fn law_reordered_profiles_load_in_order(
    d: DiskView,
    m: ManagerView,
    folder: Option<Seq<char>>,
    b: BaseView,
    now: ManifestView,
    id: Seq<char>,
    other: Seq<char>,
)
    requires
        profile_base(m.game_path, folder) == Ok::<BaseView, ErrorView>(b),
        can_be_reordered(d, b, m, now, id),
        can_be_reordered(d, b, m, now, other),
        ordered_groups(all_reconciled(d, b, now)).len() > 0,
        profile_reordered(d, m, folder).2 is Ok,
        now.mods[id].order is Some,
        now.mods[other].order is None || now.mods[id].order->0 < now.mods[other].order->0,
    ensures
        ({
            let after = loaded(profile_reordered(d, m, folder).0, b.path).1->Ok_0.mods;
            files_load_before(after[id], after[other])
        }),
{
    let m1 = all_reconciled(d, b, now);
    let groups = ordered_groups(m1);
    let r = reorder_committed(d, b.path, m.repo, m1, groups).2;
    let placements = r->Ok_0;
    let f = left_by(d, b, now, m.repo);
    assert(profile_reordered(d, m, folder).0 == f);
    let i = lemma_own_group(d, b, now, id);
    let j = lemma_own_group(d, b, now, other);
    lemma_recorded_after(d, b, now, id, m.repo, placements);
    let k = placements.len() as int;
    let m2 = placements_recorded(m1, placements, k);
    let (d1, staged) = reorder_staged(d, b.path, groups);
    let work = staged->Ok_0.0;
    lemma_placed_in_order(d1, b, groups, work, placements);
    assert forall|a: int, c: int| 0 <= a < c < placements.len() implies (
    #[trigger] placements[a]).mod_id != (#[trigger] placements[c]).mod_id by {
        assert(placements[a].mod_id == groups[a].mod_id);
        assert(placements[c].mod_id == groups[c].mod_id);
    }
    assert(placements[i].mod_id == id && placements[j].mod_id == other);
    assert(m1.mods.contains_key(groups[i].mod_id));
    assert(m1.mods.contains_key(groups[j].mod_id));
    lemma_recorded(m1, placements, k, i);
    lemma_recorded(m1, placements, k, j);
    assert forall|x: Seq<char>| #[trigger] m1.mods.contains_key(x) implies valid_shard(
        m1.mods[x].shard,
    ) by {
        assert(now.mods.contains_key(x));
    }
    law_mods_load_in_their_order(m1);
    assert(i < j) by {
        if j < i {
            assert(may_load_before(m1.mods[groups[j].mod_id], m1.mods[groups[i].mod_id]));
        }
        if i == j {
            assert(id == other);
        }
    }
    let after = loaded(f, b.path).1->Ok_0.mods;
    assert(after == m2.mods);
    assert forall|u: int, v: int|
        0 <= u < after[id].current.len() && 0 <= v < after[other].current.len() implies
        loads_before(
        (after[id].shard, pak_number(#[trigger] after[id].current[u])->0),
        (after[other].shard, pak_number(
            #[trigger] after[other].current[v],
        )->0),
    ) by {
        assert(after[id].current[u] == placements[i].vpks[u]);
        assert(after[other].current[v] == placements[j].vpks[v]);
    }
}

/// A profile is only migrated if a shard of it holds more than 99 enabled VPKs, or one that is
/// numbered above 99; otherwise nothing changes. Migrating it is reordering it.
pub proof fn law_profiles_are_migrated_if_needed(
    d: DiskView,
    m: ManagerView,
    folder: Option<Seq<char>>,
    b: BaseView,
)
    requires
        profile_base(m.game_path, folder) == Ok::<BaseView, ErrorView>(b),
    ensures
        ({
            let needed = exists|n: nat|
                1 <= n <= 10 && (enabled_count(d, #[trigger] shard_dir_of(b, n)) > 99
                    || has_out_of_range(d, shard_dir_of(b, n)));
            &&& migration_needed(d, b) <==> needed
            &&& needed ==> profile_migrated(d, m, folder) == profile_reordered(d, m, folder)
            &&& !needed ==> profile_migrated(d, m, folder) == (d, m.repo, Ok::<(), ErrorView>(()))
        }),
{
    if migration_needed(d, b) {
        let n = choose|n: nat|
            valid_shard(n) && #[trigger] shard_overfull(d, b, n);
        assert(1 <= n <= 10 && (enabled_count(d, shard_dir_of(b, n)) > 99
            || has_out_of_range(d, shard_dir_of(b, n))));
    }
    if exists|n: nat|
        1 <= n <= 10 && (enabled_count(d, #[trigger] shard_dir_of(b, n)) > 99
            || has_out_of_range(d, shard_dir_of(b, n))) {
        let n = choose|n: nat|
            1 <= n <= 10 && (enabled_count(d, #[trigger] shard_dir_of(b, n)) > 99
                || has_out_of_range(d, shard_dir_of(b, n)));
        assert(shard_overfull(d, b, n));
    }
}

} // verus!
