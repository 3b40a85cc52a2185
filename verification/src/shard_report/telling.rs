//! What the report on a profile tells.
use super::{
    enabled_first, ignored_text, issues_first, migration_text, missing_text, not_listed_text,
    nothing_there_text, report_of, shard_info, shard_issues, too_many_text, used_first,
    ReportInputView, ShardInfoView,
};
use crate::disk::{exists_at, lemma_filter_distinct, lemma_filter_members, DiskView};
use crate::path::path_text;
use crate::shard::{search_path_of, shard_dir_of, valid_shard, MAX_SHARDS};
use crate::table::{keys_of, lemma_finite_has_order, Key};
use crate::text::text_before;
use crate::vpk_manager::naming::{enabled_count, has_out_of_range};
use crate::vpk_manifest::{is_active, EntryView, ManifestView};
use vstd::prelude::*;

verus! {

/// The mods that a manifest records, with a property.
pub open spec fn ids_with(m: ManifestView, pred: spec_fn(EntryView) -> bool) -> Set<Seq<char>> {
    Set::new(|id: Seq<char>| m.mods.contains_key(id) && pred(m.mods[id]))
}

proof fn lemma_ids_counted(m: ManifestView, pred: spec_fn(EntryView) -> bool)
    requires
        m.mods.dom().finite(),
    ensures
        keys_of::<String, EntryView>(m.mods).filter(|id: Seq<char>| pred(m.mods[id])).len()
            == ids_with(m, pred).len(),
        keys_of::<String, EntryView>(m.mods).len() == m.mods.dom().len(),
{
    let keys = keys_of::<String, EntryView>(m.mods);
    let p = |id: Seq<char>| pred(m.mods[id]);
    lemma_finite_has_order::<String, EntryView>(m.mods);
    assert forall|i: int, j: int| 0 <= i < j < keys.len() implies #[trigger] keys[i]
        != #[trigger] keys[j] by {
        assert(text_before(keys[i], keys[j]));
        if keys[i] == keys[j] {
            String::before_total(keys[i], keys[j]);
        }
    }
    lemma_filter_distinct(keys, p);
    lemma_filter_members(keys, p);
    let ids = keys.filter(p);
    ids.unique_seq_to_set();
    keys.unique_seq_to_set();
    assert(ids.to_set() =~= ids_with(m, pred)) by {
        assert forall|id: Seq<char>| ids.to_set().contains(id) <==> ids_with(m, pred).contains(
            id,
        ) by {
            assert(ids.contains(id) <==> keys.contains(id) && p(id));
            assert(keys.contains(id) <==> m.mods.contains_key(id));
        }
    }
    assert(keys.to_set() =~= m.mods.dom()) by {
        assert forall|id: Seq<char>| keys.to_set().contains(id) <==> m.mods.dom().contains(id) by {
            assert(keys.contains(id) <==> m.mods.contains_key(id));
        }
    }
}

/// The report has a part for each of the ten shards, in their order. It tells where the shard
/// is, whether its directory is there, how many VPKs are enabled in it, how many enabled mods
/// with files are on record for it, whether it holds one that the engine does not load, and
/// whether its search path is in gameinfo.gi.
pub proof fn law_reports_tell_of_every_shard(d: DiskView, x: ReportInputView, n: nat)
    requires
        valid_shard(n),
        x.manifest.mods.dom().finite(),
    ensures
        report_of(d, x).shards.len() == 10,
        ({
            let s = report_of(d, x).shards[n - 1];
            let dir = shard_dir_of(x.base, n);
            &&& s.index == n
            &&& s.directory == path_text(dir)
            &&& s.present <==> exists_at(d, dir)
            &&& s.enabled_vpks == enabled_count(d, dir)
            &&& s.manifest_mods == ids_with(
                x.manifest,
                |e: EntryView| e.enabled && e.current.len() > 0 && e.shard == n,
            ).len()
            &&& s.out_of_range_vpks <==> has_out_of_range(d, dir)
            &&& s.in_gameinfo <==> x.gameinfo.contains(search_path_of(n, x.profile_folder))
        }),
{
    let pred = |e: EntryView| e.enabled && e.current.len() > 0 && e.shard == n;
    lemma_ids_counted(x.manifest, pred);
    assert((|id: Seq<char>| pred(x.manifest.mods[id])) =~= (|id: Seq<char>|
        is_active(x.manifest.mods[id]) && x.manifest.mods[id].shard == n));
}

proof fn lemma_sums(d: DiskView, x: ReportInputView, k: nat)
    requires
        k <= MAX_SHARDS,
    ensures
        ({
            let parts = report_of(d, x).shards.take(k as int);
            &&& parts.fold_left(0nat, |sum: nat, s: ShardInfoView| sum + s.enabled_vpks)
                == enabled_first(d, x.base, k)
            &&& parts.filter(|s: ShardInfoView| s.enabled_vpks > 0).len() == used_first(
                d,
                x.base,
                k,
            )
        }),
    decreases k,
{
    let all = report_of(d, x).shards;
    let parts = all.take(k as int);
    let f = |sum: nat, s: ShardInfoView| sum + s.enabled_vpks;
    let p = |s: ShardInfoView| s.enabled_vpks > 0;
    reveal(Seq::filter);
    reveal(Seq::fold_left);
    if k > 0 {
        lemma_sums(d, x, (k - 1) as nat);
        assert(parts.drop_last() =~= all.take(k - 1));
        assert(parts.last() == shard_info(d, x, k));
    }
}

/// The counts of the report add up: the enabled VPKs are those of all its shards, the shards
/// in use those that hold one, and sharding is active where there is more than one of them.
/// The mods are those on record, and the enabled ones those recorded as such.
pub proof fn law_reports_add_up(d: DiskView, x: ReportInputView)
    requires
        x.manifest.mods.dom().finite(),
    ensures
        ({
            let r = report_of(d, x);
            &&& r.total_enabled_vpks == r.shards.fold_left(
                0nat,
                |sum: nat, s: ShardInfoView| sum + s.enabled_vpks,
            )
            &&& r.shards_in_use == r.shards.filter(|s: ShardInfoView| s.enabled_vpks > 0).len()
            &&& r.sharding_active <==> r.shards_in_use > 1
            &&& r.manifest_mods == x.manifest.mods.dom().len()
            &&& r.manifest_enabled_mods == ids_with(x.manifest, |e: EntryView| e.enabled).len()
            &&& r.manifest_version == x.manifest.version
            &&& r.shard_capacity == 99
            &&& r.max_shards == 10
            &&& r.profile_folder == x.profile_folder
            &&& r.expected_search_paths == x.expected
            &&& r.gameinfo_search_paths == x.gameinfo
            &&& r.needs_migration == x.needs_migration
        }),
{
    lemma_sums(d, x, MAX_SHARDS as nat);
    let all = report_of(d, x).shards;
    assert(all.take(MAX_SHARDS as int) =~= all);
    let pred = |e: EntryView| e.enabled;
    lemma_ids_counted(x.manifest, pred);
    assert((|id: Seq<char>| pred(x.manifest.mods[id])) =~= (|id: Seq<char>|
        x.manifest.mods[id].enabled));
}

proof fn lemma_issue_kept(d: DiskView, x: ReportInputView, k: nat, n: nat, t: Seq<char>)
    requires
        1 <= n <= k,
        shard_issues(shard_info(d, x, n), search_path_of(n, x.profile_folder)).contains(t),
    ensures
        issues_first(d, x, k).contains(t),
    decreases k,
{
    let own = shard_issues(shard_info(d, x, k), search_path_of(k, x.profile_folder));
    let before = issues_first(d, x, (k - 1) as nat);
    let all = issues_first(d, x, k);
    if n == k {
        let i = choose|i: int| 0 <= i < own.len() && own[i] == t;
        assert(all[before.len() + i] == t);
    } else {
        lemma_issue_kept(d, x, (k - 1) as nat, n, t);
        let i = choose|i: int| 0 <= i < before.len() && before[i] == t;
        assert(all[i] == t);
    }
}

/// Every fault is told: enabled VPKs in a shard that gameinfo.gi does not list, mods on record
/// for a shard that holds none, a shard over the limit of 99, numbers that the engine ignores,
/// search paths that are missing, and a layout to migrate.
pub proof fn law_every_fault_is_told(d: DiskView, x: ReportInputView, n: nat)
    requires
        valid_shard(n),
    ensures
        ({
            let r = report_of(d, x);
            let s = r.shards[n - 1];
            let lost = x.expected.filter(|p: Seq<char>| !x.gameinfo.contains(p)).len();
            &&& s.enabled_vpks > 0 && !s.in_gameinfo ==> r.issues.contains(
                not_listed_text(s, search_path_of(n, x.profile_folder)),
            )
            &&& s.manifest_mods > 0 && s.enabled_vpks == 0 ==> r.issues.contains(
                nothing_there_text(s),
            )
            &&& s.enabled_vpks > 99 ==> r.issues.contains(too_many_text(s))
            &&& s.out_of_range_vpks ==> r.issues.contains(ignored_text(s))
            &&& lost > 0 ==> r.issues.contains(missing_text(lost))
            &&& x.needs_migration ==> r.issues.contains(migration_text())
        }),
{
    let r = report_of(d, x);
    let s = r.shards[n - 1];
    let path = search_path_of(n, x.profile_folder);
    let lost = x.expected.filter(|p: Seq<char>| !x.gameinfo.contains(p)).len();
    let first = issues_first(d, x, MAX_SHARDS as nat);
    let a = crate::shard_report::when(s.enabled_vpks > 0 && !s.in_gameinfo, not_listed_text(s, path));
    let b = crate::shard_report::when(s.manifest_mods > 0 && s.enabled_vpks == 0, nothing_there_text(s));
    let c = crate::shard_report::when(s.enabled_vpks > 99, too_many_text(s));
    let e = crate::shard_report::when(s.out_of_range_vpks, ignored_text(s));
    let own = shard_issues(s, path);
    assert(own == a + b + c + e);
    assert forall|t: Seq<char>| #[trigger] own.contains(t) implies r.issues.contains(t) by {
        lemma_issue_kept(d, x, MAX_SHARDS as nat, n, t);
        let i = choose|i: int| 0 <= i < first.len() && first[i] == t;
        assert(r.issues[i] == t);
    }
    if a.len() > 0 {
        assert(own[0] == not_listed_text(s, path));
        assert(own.contains(not_listed_text(s, path)));
    }
    if b.len() > 0 {
        assert(own[a.len() as int] == nothing_there_text(s));
        assert(own.contains(nothing_there_text(s)));
    }
    if c.len() > 0 {
        assert(own[(a.len() + b.len()) as int] == too_many_text(s));
        assert(own.contains(too_many_text(s)));
    }
    if e.len() > 0 {
        assert(own[(a.len() + b.len() + c.len()) as int] == ignored_text(s));
        assert(own.contains(ignored_text(s)));
    }
    if lost > 0 {
        assert(r.issues[first.len() as int] == missing_text(lost));
        assert(r.issues.contains(missing_text(lost)));
    }
    if x.needs_migration {
        assert(r.issues[r.issues.len() - 1] == migration_text());
        assert(r.issues.contains(migration_text()));
    }
}

} // verus!
