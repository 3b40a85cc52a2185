//! Consistency report for a profile's shard layout.
//!
//! Sharding only works when three sources agree: the shard directories, the
//! profile manifest, and the search paths in gameinfo.gi. The report compares
//! them and names the disagreements.
use crate::text;
use crate::disk::{all_paths, exists_at, is_child, lemma_filter_push, Disk, DiskView};
use crate::path::{path_text, PathView};
use crate::shard::{
    base_ok, law_shard_dirs_differ, search_path_of, shard_dir_of, valid_shard, BaseView,
    ProfileBase, ShardIndex, MAX_SHARDS, SHARD_CAPACITY,
};
use crate::table::keys_of;
use crate::text::{dec, opt_text, texts};
use crate::vpk_manager::VpkManager;
use crate::vpk_manager::naming::{enabled_count, enabled_in, has_out_of_range};
use crate::vpk_manifest::{is_active, EntryView, ManifestView, ProfileVpkManifest};
use vstd::prelude::*;
use vstd::string::*;

pub mod telling;

verus! {

/// What is known of one shard.
#[derive(Debug)]
pub struct ShardInfo {
    pub index: u32,
    pub directory: String,
    pub present: bool,
    /// The VPKs that are enabled in the directory.
    pub enabled_vpks: usize,
    /// The mods that the manifest places in this shard.
    pub manifest_mods: usize,
    /// Whether there are numbers above the engine's limit, a leftover of the
    /// layout before sharding.
    pub out_of_range_vpks: bool,
    /// Whether the search path of this shard is in gameinfo.gi.
    pub in_gameinfo: bool,
}

pub struct ShardInfoView {
    pub index: nat,
    pub directory: Seq<char>,
    pub present: bool,
    pub enabled_vpks: nat,
    pub manifest_mods: nat,
    pub out_of_range_vpks: bool,
    pub in_gameinfo: bool,
}

impl View for ShardInfo {
    type V = ShardInfoView;

    open spec fn view(&self) -> ShardInfoView {
        ShardInfoView {
            index: self.index as nat,
            directory: self.directory@,
            present: self.present,
            enabled_vpks: self.enabled_vpks as nat,
            manifest_mods: self.manifest_mods as nat,
            out_of_range_vpks: self.out_of_range_vpks,
            in_gameinfo: self.in_gameinfo,
        }
    }
}

/// The state of a profile's shards.
#[derive(Debug)]
pub struct ShardReport {
    pub profile_folder: Option<String>,
    pub shard_capacity: u32,
    pub max_shards: u32,
    /// Whether more than one shard is in use.
    pub sharding_active: bool,
    pub shards_in_use: usize,
    pub total_enabled_vpks: usize,
    pub manifest_version: u32,
    pub manifest_mods: usize,
    pub manifest_enabled_mods: usize,
    /// The search paths that the state of the profile implies.
    pub expected_search_paths: Vec<String>,
    /// The search paths that are written in gameinfo.gi.
    pub gameinfo_search_paths: Vec<String>,
    pub search_paths_in_sync: bool,
    pub needs_migration: bool,
    pub shards: Vec<ShardInfo>,
    /// The disagreements, in the words the user needs to act on them.
    pub issues: Vec<String>,
}

#[verifier::ext_equal]
pub struct ShardReportView {
    pub profile_folder: Option<Seq<char>>,
    pub shard_capacity: u32,
    pub max_shards: u32,
    pub sharding_active: bool,
    pub shards_in_use: nat,
    pub total_enabled_vpks: nat,
    pub manifest_version: u32,
    pub manifest_mods: nat,
    pub manifest_enabled_mods: nat,
    pub expected_search_paths: Seq<Seq<char>>,
    pub gameinfo_search_paths: Seq<Seq<char>>,
    pub search_paths_in_sync: bool,
    pub needs_migration: bool,
    pub shards: Seq<ShardInfoView>,
    pub issues: Seq<Seq<char>>,
}

pub open spec fn info_views(v: Seq<ShardInfo>) -> Seq<ShardInfoView> {
    v.map_values(|s: ShardInfo| s@)
}

impl View for ShardReport {
    type V = ShardReportView;

    open spec fn view(&self) -> ShardReportView {
        ShardReportView {
            profile_folder: opt_text(self.profile_folder),
            shard_capacity: self.shard_capacity,
            max_shards: self.max_shards,
            sharding_active: self.sharding_active,
            shards_in_use: self.shards_in_use as nat,
            total_enabled_vpks: self.total_enabled_vpks as nat,
            manifest_version: self.manifest_version,
            manifest_mods: self.manifest_mods as nat,
            manifest_enabled_mods: self.manifest_enabled_mods as nat,
            expected_search_paths: texts(self.expected_search_paths@),
            gameinfo_search_paths: texts(self.gameinfo_search_paths@),
            search_paths_in_sync: self.search_paths_in_sync,
            needs_migration: self.needs_migration,
            shards: info_views(self.shards@),
            issues: texts(self.issues@),
        }
    }
}

/// Everything the report is derived from besides the addon tree, gathered by the
/// caller because each piece comes from a different owner.
pub struct ShardReportInput<'a> {
    pub base: &'a ProfileBase,
    pub profile_folder: Option<String>,
    pub manifest: &'a ProfileVpkManifest,
    pub expected_search_paths: Vec<String>,
    pub gameinfo_search_paths: Vec<String>,
    pub needs_migration: bool,
}

pub struct ReportInputView {
    pub base: BaseView,
    pub profile_folder: Option<Seq<char>>,
    pub manifest: ManifestView,
    pub expected: Seq<Seq<char>>,
    pub gameinfo: Seq<Seq<char>>,
    pub needs_migration: bool,
}

impl<'a> View for ShardReportInput<'a> {
    type V = ReportInputView;

    open spec fn view(&self) -> ReportInputView {
        ReportInputView {
            base: self.base@,
            profile_folder: opt_text(self.profile_folder),
            manifest: self.manifest@,
            expected: texts(self.expected_search_paths@),
            gameinfo: texts(self.gameinfo_search_paths@),
            needs_migration: self.needs_migration,
        }
    }
}

/// How many active mods the manifest places in shard `n`.
pub open spec fn mods_placed(m: ManifestView, n: nat) -> nat {
    keys_of::<String, EntryView>(m.mods).filter(
        |id: Seq<char>| is_active(m.mods[id]) && m.mods[id].shard == n,
    ).len()
}

/// How many mods the manifest records as enabled.
pub open spec fn mods_enabled(m: ManifestView) -> nat {
    keys_of::<String, EntryView>(m.mods).filter(|id: Seq<char>| m.mods[id].enabled).len()
}

/// What is known of shard `n`.
pub open spec fn shard_info(d: DiskView, x: ReportInputView, n: nat) -> ShardInfoView {
    let dir = shard_dir_of(x.base, n);
    ShardInfoView {
        index: n,
        directory: path_text(dir),
        present: exists_at(d, dir),
        enabled_vpks: enabled_count(d, dir),
        manifest_mods: mods_placed(x.manifest, n),
        out_of_range_vpks: has_out_of_range(d, dir),
        in_gameinfo: x.gameinfo.contains(search_path_of(n, x.profile_folder)),
    }
}

pub open spec fn not_listed_text(s: ShardInfoView, path: Seq<char>) -> Seq<char> {
    "Shard "@ + dec(s.index) + " holds "@ + dec(s.enabled_vpks) + " enabled VPKs but "@ + path
        + " is not in gameinfo.gi, so the engine will not load them."@
}

pub open spec fn nothing_there_text(s: ShardInfoView) -> Seq<char> {
    "The manifest places "@ + dec(s.manifest_mods) + " mod(s) in shard "@ + dec(s.index)
        + ", but no enabled VPKs exist there."@
}

pub open spec fn too_many_text(s: ShardInfoView) -> Seq<char> {
    "Shard "@ + dec(s.index) + " holds "@ + dec(s.enabled_vpks)
        + " enabled VPKs, over the engine limit of "@ + dec(SHARD_CAPACITY as nat) + "."@
}

pub open spec fn ignored_text(s: ShardInfoView) -> Seq<char> {
    "Shard "@ + dec(s.index) + " contains pak files numbered above "@ + dec(SHARD_CAPACITY as nat)
        + " that the engine ignores."@
}

pub open spec fn missing_text(missing: nat) -> Seq<char> {
    "gameinfo.gi is missing "@ + dec(missing)
        + " expected search path(s). Switch profiles or launch the game to rewrite it."@
}

pub open spec fn migration_text() -> Seq<char> {
    "This profile still uses the pre-sharding layout and will be migrated on the next profile switch or game launch."@
}

/// A text that is only there under a condition.
pub open spec fn when(c: bool, t: Seq<char>) -> Seq<Seq<char>> {
    if c {
        seq![t]
    } else {
        Seq::empty()
    }
}

/// What is wrong with one shard.
pub open spec fn shard_issues(s: ShardInfoView, path: Seq<char>) -> Seq<Seq<char>> {
    when(s.enabled_vpks > 0 && !s.in_gameinfo, not_listed_text(s, path)) + when(
        s.manifest_mods > 0 && s.enabled_vpks == 0,
        nothing_there_text(s),
    ) + when(s.enabled_vpks > SHARD_CAPACITY, too_many_text(s)) + when(
        s.out_of_range_vpks,
        ignored_text(s),
    )
}

/// What is wrong with the first `k` shards.
pub open spec fn issues_first(d: DiskView, x: ReportInputView, k: nat) -> Seq<Seq<char>>
    decreases k,
{
    if k == 0 {
        Seq::empty()
    } else {
        issues_first(d, x, (k - 1) as nat) + shard_issues(
            shard_info(d, x, k),
            search_path_of(k, x.profile_folder),
        )
    }
}

/// The VPKs enabled in the first `k` shards.
pub open spec fn enabled_first(d: DiskView, b: BaseView, k: nat) -> nat
    decreases k,
{
    if k == 0 {
        0
    } else {
        enabled_first(d, b, (k - 1) as nat) + enabled_count(d, shard_dir_of(b, k))
    }
}

/// How many of the first `k` shards hold enabled VPKs.
pub open spec fn used_first(d: DiskView, b: BaseView, k: nat) -> nat
    decreases k,
{
    if k == 0 {
        0
    } else {
        used_first(d, b, (k - 1) as nat) + if enabled_count(d, shard_dir_of(b, k)) > 0 {
            1nat
        } else {
            0nat
        }
    }
}

/// How many of the expected search paths are not in gameinfo.gi.
pub open spec fn missing_paths(expected: Seq<Seq<char>>, gameinfo: Seq<Seq<char>>) -> nat {
    expected.filter(|p: Seq<char>| !gameinfo.contains(p)).len()
}

/// The report on a profile.
pub open spec fn report_of(d: DiskView, x: ReportInputView) -> ShardReportView {
    let missing = missing_paths(x.expected, x.gameinfo);
    ShardReportView {
        profile_folder: x.profile_folder,
        shard_capacity: SHARD_CAPACITY,
        max_shards: MAX_SHARDS,
        sharding_active: used_first(d, x.base, MAX_SHARDS as nat) > 1,
        shards_in_use: used_first(d, x.base, MAX_SHARDS as nat),
        total_enabled_vpks: enabled_first(d, x.base, MAX_SHARDS as nat),
        manifest_version: x.manifest.version,
        manifest_mods: keys_of::<String, EntryView>(x.manifest.mods).len(),
        manifest_enabled_mods: mods_enabled(x.manifest),
        expected_search_paths: x.expected,
        gameinfo_search_paths: x.gameinfo,
        search_paths_in_sync: missing == 0,
        needs_migration: x.needs_migration,
        shards: Seq::new(MAX_SHARDS as nat, |i: int| shard_info(d, x, (i + 1) as nat)),
        issues: issues_first(d, x, MAX_SHARDS as nat) + when(missing > 0, missing_text(missing))
            + when(x.needs_migration, migration_text()),
    }
}

// ---------------------------------------------------------------------------
// Laws
// ---------------------------------------------------------------------------

/// A shard on which the addon tree, the manifest and gameinfo.gi agree.
pub open spec fn shard_sound(d: DiskView, x: ReportInputView, n: nat) -> bool {
    let s = shard_info(d, x, n);
    &&& s.enabled_vpks > 0 ==> s.in_gameinfo
    &&& s.manifest_mods > 0 ==> s.enabled_vpks > 0
    &&& s.enabled_vpks <= SHARD_CAPACITY
    &&& !s.out_of_range_vpks
}

proof fn lemma_issues_first(d: DiskView, x: ReportInputView, k: nat)
    ensures
        issues_first(d, x, k).len() == 0 <==> (forall|n: nat|
            1 <= n <= k ==> #[trigger] shard_sound(d, x, n)),
    decreases k,
{
    if k > 0 {
        lemma_issues_first(d, x, (k - 1) as nat);
        let own = shard_issues(shard_info(d, x, k), search_path_of(k, x.profile_folder));
        assert(own.len() == 0 <==> shard_sound(d, x, k));
        if issues_first(d, x, k).len() == 0 {
            assert forall|n: nat| 1 <= n <= k implies #[trigger] shard_sound(d, x, n) by {
                if n < k {
                    assert(1 <= n <= (k - 1) as nat);
                }
            }
        }
    }
}

/// The expected search paths are in gameinfo.gi exactly if none is missing.
pub proof fn law_search_paths_in_sync(d: DiskView, x: ReportInputView)
    ensures
        report_of(d, x).search_paths_in_sync <==> (forall|p: Seq<char>| #[trigger]
            x.expected.contains(p) ==> x.gameinfo.contains(p)),
{
    let pred = |p: Seq<char>| !x.gameinfo.contains(p);
    let lost = x.expected.filter(pred);
    crate::disk::lemma_filter_members(x.expected, pred);
    if lost.len() > 0 {
        assert(lost.contains(lost[0]));
    } else {
        assert forall|p: Seq<char>| #[trigger] x.expected.contains(p) implies x.gameinfo.contains(
            p,
        ) by {
            if !x.gameinfo.contains(p) {
                assert(lost.contains(p));
            }
        }
    }
}

/// The report names no issue exactly if the sources agree: every shard with
/// enabled VPKs is in gameinfo.gi, no shard that the manifest uses is empty, none
/// is over the engine's limits, no expected search path is missing, and there is
/// nothing to migrate.
pub proof fn law_no_issues_means_consistent(d: DiskView, x: ReportInputView)
    ensures
        report_of(d, x).issues.len() == 0 <==> ((forall|n: nat|
            valid_shard(n) ==> #[trigger] shard_sound(d, x, n)) && report_of(
            d,
            x,
        ).search_paths_in_sync && !x.needs_migration),
{
    lemma_issues_first(d, x, MAX_SHARDS as nat);
    assert forall|n: nat| valid_shard(n) <==> 1 <= n <= MAX_SHARDS by {}
    if report_of(d, x).issues.len() == 0 {
        assert(issues_first(d, x, MAX_SHARDS as nat).len() == 0);
        assert forall|n: nat| valid_shard(n) implies #[trigger] shard_sound(d, x, n) by {}
    }
}

// ---------------------------------------------------------------------------
// Counting
// ---------------------------------------------------------------------------

/// A path in one of the first `k` shard directories.
spec fn in_first(b: BaseView, k: nat, p: PathView) -> bool {
    exists|n: nat| 1 <= n <= k && #[trigger] is_child(shard_dir_of(b, n), p)
}

proof fn lemma_filter_either<A>(
    s: Seq<A>,
    p: spec_fn(A) -> bool,
    q: spec_fn(A) -> bool,
    either: spec_fn(A) -> bool,
)
    requires
        forall|x: A| !(#[trigger] p(x) && q(x)),
        forall|x: A| #[trigger] either(x) <==> p(x) || q(x),
    ensures
        s.filter(either).len() == s.filter(p).len() + s.filter(q).len(),
    decreases s.len(),
{
    reveal(Seq::filter);
    if s.len() > 0 {
        lemma_filter_either(s.drop_last(), p, q, either);
        let x = s.last();
        assert(either(x) <==> p(x) || q(x));
        assert(!(p(x) && q(x)));
    }
}

/// The shards together hold no more enabled VPKs than there are paths.
proof fn lemma_enabled_first(d: DiskView, b: BaseView, k: nat)
    requires
        base_ok(b),
        k <= MAX_SHARDS,
    ensures
        enabled_first(d, b, k) <= all_paths(d).filter(|p: PathView| in_first(b, k, p)).len(),
    decreases k,
{
    if k > 0 {
        let s = all_paths(d);
        let less = (k - 1) as nat;
        lemma_enabled_first(d, b, less);
        let dir = shard_dir_of(b, k);
        let p = |p: PathView| in_first(b, less, p);
        let q = |p: PathView| is_child(dir, p);
        let either = |p: PathView| in_first(b, k, p);
        assert forall|x: PathView| !(#[trigger] p(x) && q(x)) by {
            if p(x) && q(x) {
                let n = choose|n: nat| 1 <= n <= less && #[trigger] is_child(shard_dir_of(b, n), x);
                assert(shard_dir_of(b, n) =~= x.drop_last());
                assert(dir =~= x.drop_last());
                law_shard_dirs_differ(b, n, k);
            }
        }
        assert forall|x: PathView| #[trigger] either(x) <==> p(x) || q(x) by {
            if either(x) {
                let n = choose|n: nat| 1 <= n <= k && #[trigger] is_child(shard_dir_of(b, n), x);
                if n < k {
                    assert(1 <= n <= less && is_child(shard_dir_of(b, n), x));
                }
            }
            if p(x) {
                let n = choose|n: nat| 1 <= n <= less && #[trigger] is_child(shard_dir_of(b, n), x);
                assert(1 <= n <= k && is_child(shard_dir_of(b, n), x));
            }
            if q(x) {
                assert(1 <= k <= k && is_child(shard_dir_of(b, k), x));
            }
        }
        lemma_filter_either(s, p, q, either);
        let names = crate::disk::names_in(d, dir);
        assert(names.len() == s.filter(q).len());
        names.lemma_filter_len(|n: Seq<char>| enabled_in(d, dir, n));
    }
}

fn count_mods(manifest: &ProfileVpkManifest, shard: u32) -> (r: usize)
    ensures
        r == mods_placed(manifest@, shard as nat),
{
    let n: usize = manifest.mods.len();
    let ghost keys = manifest.mods.keys();
    let ghost m = manifest@;
    let ghost pred = |id: Seq<char>| is_active(m.mods[id]) && m.mods[id].shard == shard as nat;
    let mut count: usize = 0;
    let mut i: usize = 0;
    proof {
        reveal(Seq::filter);
        assert(keys.take(0).filter(pred) =~= Seq::<Seq<char>>::empty());
    }
    while i < n
        invariant
            i <= n == keys.len(),
            m == manifest@,
            keys == manifest.mods.keys(),
            pred == (|id: Seq<char>| is_active(m.mods[id]) && m.mods[id].shard == shard as nat),
            count == keys.take(i as int).filter(pred).len(),
            count <= i,
        decreases n - i,
    {
        let e = manifest.mods.value_at(i);
        proof {
            assert(keys.take(i + 1) =~= keys.take(i as int).push(keys[i as int]));
            lemma_filter_push(keys.take(i as int), keys[i as int], pred);
            assert(e@.current.len() == e.current_vpks@.len());
        }
        if e.enabled && e.current_vpks.len() > 0 && e.shard.get() == shard {
            count = count + 1;
        }
        i = i + 1;
    }
    assert(keys.take(n as int) =~= keys);
    count
}

fn count_enabled_mods(manifest: &ProfileVpkManifest) -> (r: usize)
    ensures
        r == mods_enabled(manifest@),
{
    let n: usize = manifest.mods.len();
    let ghost keys = manifest.mods.keys();
    let ghost m = manifest@;
    let ghost pred = |id: Seq<char>| m.mods[id].enabled;
    let mut count: usize = 0;
    let mut i: usize = 0;
    proof {
        reveal(Seq::filter);
        assert(keys.take(0).filter(pred) =~= Seq::<Seq<char>>::empty());
    }
    while i < n
        invariant
            i <= n == keys.len(),
            m == manifest@,
            keys == manifest.mods.keys(),
            pred == (|id: Seq<char>| m.mods[id].enabled),
            count == keys.take(i as int).filter(pred).len(),
            count <= i,
        decreases n - i,
    {
        let e = manifest.mods.value_at(i);
        proof {
            assert(keys.take(i + 1) =~= keys.take(i as int).push(keys[i as int]));
            lemma_filter_push(keys.take(i as int), keys[i as int], pred);
        }
        if e.enabled {
            count = count + 1;
        }
        i = i + 1;
    }
    assert(keys.take(n as int) =~= keys);
    count
}

fn count_missing(expected: &Vec<String>, gameinfo: &Vec<String>) -> (r: usize)
    ensures
        r == missing_paths(texts(expected@), texts(gameinfo@)),
{
    let ghost all = texts(expected@);
    let ghost pred = |p: Seq<char>| !texts(gameinfo@).contains(p);
    let mut count: usize = 0;
    let mut i: usize = 0;
    proof {
        reveal(Seq::filter);
        assert(all.take(0).filter(pred) =~= Seq::<Seq<char>>::empty());
    }
    while i < expected.len()
        invariant
            i <= expected@.len(),
            all == texts(expected@),
            pred == (|p: Seq<char>| !texts(gameinfo@).contains(p)),
            count == all.take(i as int).filter(pred).len(),
            count <= i,
        decreases expected@.len() - i,
    {
        proof {
            assert(all[i as int] == expected@[i as int]@);
            assert(all.take(i + 1) =~= all.take(i as int).push(all[i as int]));
            lemma_filter_push(all.take(i as int), all[i as int], pred);
        }
        if !text::holds_text(gameinfo, expected[i].as_str()) {
            count = count + 1;
        }
        i = i + 1;
    }
    assert(all.take(all.len() as int) =~= all);
    count
}

// ---------------------------------------------------------------------------
// The report
// ---------------------------------------------------------------------------

/// Adds what is wrong with one shard.
fn note_shard_issues(issues: &mut Vec<String>, s: &ShardInfo, path: &str)
    ensures
        texts(final(issues)@) == texts(old(issues)@) + shard_issues(s@, path@),
{
    let index = text::decimal(s.index as u64);
    let enabled = text::decimal(s.enabled_vpks as u64);
    let ghost start = texts(issues@);
    let ghost first = when(s@.enabled_vpks > 0 && !s@.in_gameinfo, not_listed_text(s@, path@));
    let ghost second = when(
        s@.manifest_mods > 0 && s@.enabled_vpks == 0,
        nothing_there_text(s@),
    );
    let ghost third = when(s@.enabled_vpks > SHARD_CAPACITY, too_many_text(s@));
    let ghost fourth = when(s@.out_of_range_vpks, ignored_text(s@));
    if s.enabled_vpks > 0 && !s.in_gameinfo {
        let mut m: String = "Shard ".to_owned();
        m.append(index.as_str());
        m.append(" holds ");
        m.append(enabled.as_str());
        m.append(" enabled VPKs but ");
        m.append(path);
        m.append(" is not in gameinfo.gi, so the engine will not load them.");
        issues.push(m);
    }
    assert(texts(issues@) =~= start + first);
    if s.manifest_mods > 0 && s.enabled_vpks == 0 {
        let mut m: String = "The manifest places ".to_owned();
        m.append(text::decimal(s.manifest_mods as u64).as_str());
        m.append(" mod(s) in shard ");
        m.append(index.as_str());
        m.append(", but no enabled VPKs exist there.");
        issues.push(m);
    }
    assert(texts(issues@) =~= start + first + second);
    if s.enabled_vpks > SHARD_CAPACITY as usize {
        let mut m: String = "Shard ".to_owned();
        m.append(index.as_str());
        m.append(" holds ");
        m.append(enabled.as_str());
        m.append(" enabled VPKs, over the engine limit of ");
        m.append(text::decimal(SHARD_CAPACITY as u64).as_str());
        m.append(".");
        issues.push(m);
    }
    assert(texts(issues@) =~= start + first + second + third);
    if s.out_of_range_vpks {
        let mut m: String = "Shard ".to_owned();
        m.append(index.as_str());
        m.append(" contains pak files numbered above ");
        m.append(text::decimal(SHARD_CAPACITY as u64).as_str());
        m.append(" that the engine ignores.");
        issues.push(m);
    }
    assert(texts(issues@) =~= start + first + second + third + fourth);
    assert(start + first + second + third + fourth =~= start + (first + second + third + fourth));
}

fn shard_info_of(disk: &Disk, input: &ShardReportInput<'_>, index: ShardIndex, path: &str) -> (r:
    ShardInfo)
    requires
        path@ == search_path_of(index.number(), opt_text(input.profile_folder)),
    ensures
        r@ == shard_info(disk@, input@, index.number()),
{
    let directory = input.base.shard_dir(index);
    ShardInfo {
        index: index.get(),
        directory: directory.to_text(),
        present: disk.has(&directory),
        enabled_vpks: VpkManager::count_enabled_vpks(disk, &directory),
        manifest_mods: count_mods(input.manifest, index.get()),
        out_of_range_vpks: VpkManager::has_out_of_range_enabled_vpks(disk, &directory),
        in_gameinfo: text::holds_text(&input.gameinfo_search_paths, path),
    }
}

/// Compares the addon tree, the manifest and gameinfo.gi.
pub fn analyze(disk: &Disk, input: ShardReportInput<'_>) -> (r: ShardReport)
    ensures
        r@ == report_of(disk@, input@),
{
    let ghost d = disk@;
    let ghost x = input@;
    let all = input.base.shards();
    let paths: usize = disk.count();
    let mut shards: Vec<ShardInfo> = Vec::new();
    let mut issues: Vec<String> = Vec::new();
    let mut total_enabled_vpks: usize = 0;
    let mut shards_in_use: usize = 0;
    let mut i: usize = 0;
    assert(texts(issues@) =~= issues_first(d, x, 0));
    while i < all.len()
        invariant
            i <= all@.len() == MAX_SHARDS,
            d == disk@,
            x == input@,
            base_ok(x.base),
            paths == all_paths(d).len(),
            forall|j: int| 0 <= j < MAX_SHARDS ==> (#[trigger] all@[j]).0.number() == j + 1,
            shards@.len() == i,
            forall|j: int|
                0 <= j < i ==> (#[trigger] shards@[j])@ == shard_info(d, x, (j + 1) as nat),
            texts(issues@) == issues_first(d, x, i as nat),
            total_enabled_vpks == enabled_first(d, x.base, i as nat),
            shards_in_use == used_first(d, x.base, i as nat),
            shards_in_use <= i,
        decreases all@.len() - i,
    {
        let index = all[i].0;
        let path = index.search_path(&input.profile_folder);
        let info = shard_info_of(disk, &input, index, path.as_str());
        proof {
            assert(info@ == shard_info(d, x, (i + 1) as nat));
            lemma_enabled_first(d, x.base, (i + 1) as nat);
            all_paths(d).lemma_filter_len(|p: PathView| in_first(x.base, (i + 1) as nat, p));
        }
        total_enabled_vpks = total_enabled_vpks + info.enabled_vpks;
        if info.enabled_vpks > 0 {
            shards_in_use = shards_in_use + 1;
        }
        note_shard_issues(&mut issues, &info, path.as_str());
        shards.push(info);
        i = i + 1;
    }
    let missing: usize = count_missing(&input.expected_search_paths, &input.gameinfo_search_paths);
    let ghost own = texts(issues@);
    let ghost late = when(missing > 0, missing_text(missing as nat));
    if missing > 0 {
        let mut m: String = "gameinfo.gi is missing ".to_owned();
        m.append(text::decimal(missing as u64).as_str());
        m.append(" expected search path(s). Switch profiles or launch the game to rewrite it.");
        issues.push(m);
    }
    assert(texts(issues@) =~= own + late);
    if input.needs_migration {
        issues.push(
            "This profile still uses the pre-sharding layout and will be migrated on the next profile switch or game launch.".to_owned(),
        );
    }
    assert(texts(issues@) =~= own + late + when(x.needs_migration, migration_text()));
    let r = ShardReport {
        profile_folder: input.profile_folder,
        shard_capacity: SHARD_CAPACITY,
        max_shards: MAX_SHARDS,
        sharding_active: shards_in_use > 1,
        shards_in_use,
        total_enabled_vpks,
        manifest_version: input.manifest.version,
        manifest_mods: input.manifest.mods.len(),
        manifest_enabled_mods: count_enabled_mods(input.manifest),
        search_paths_in_sync: missing == 0,
        expected_search_paths: input.expected_search_paths,
        gameinfo_search_paths: input.gameinfo_search_paths,
        needs_migration: input.needs_migration,
        shards,
        issues,
    };
    assert(info_views(r.shards@) =~= report_of(d, x).shards);
    r
}

} // verus!
