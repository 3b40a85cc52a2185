//! What a profile holds, and which of its files may be deleted.
use super::{
    folder_char, folder_path, is_mark, is_profile_in, law_seeding_keeps_recorded_mods,
    manifest_read, manifest_seeded, mark_end, mark_start, profile_deleted, profile_folder_name,
    profile_made, profile_switched, profiles_listed, seeded_first, seeds_new, without_marks,
    SeedView,
};
use super::vpks::{
    addons_found, deletion_decided, diagnosed, files_first, is_managed, is_vpk_in, mod_shown,
    owns_file, profile_files, shard_files, vpk_file, vpk_located, vpks_first, LocatedView,
    ShownView, VpkFileView,
};
use crate::disk::{
    exists_at, is_dir_at, is_file_at, lemma_dirs_there, lemma_filter_members, lemma_names_in,
    names_in, rooted, DiskView, NodeView,
};
use crate::error::ErrorView;
use crate::manager::{addons_root, profile_base, ManagerView};
use crate::manager::gameinfo::{migration_needed, paths_read};
use crate::manager::reorder::profile_migrated;
use crate::manifest_store::{lemma_saved, loaded, mods_on_record};
use crate::manifest_store::rereading::{law_reading_again_gives_the_same, manifest_stays};
use crate::path::{lemma_join_plain, plain_name, vpk_name, PathView, TreePath};
use crate::shard::{
    base_of, law_locators_round_trip, locator_of, search_path_char, shard_dir_of, valid_shard,
    wire_of, BaseView, LocatorView, MAX_SHARDS,
};
use crate::shard_store::{existing_of, lemma_existing};
use crate::table::{ascending, lemma_filter_in_order, lemma_finite_has_order, Key};
use crate::text::{contains_text, ends_with, lowercase, starts_with, text_before, whitespace};
use crate::vpk_manifest::{EntryView, ManifestView};
use vstd::prelude::*;

verus! {

/// A VPK file stands in shard `n` of a profile.
pub open spec fn holds_file(d: DiskView, b: BaseView, n: nat, name: Seq<char>) -> bool {
    valid_shard(n) && is_file_at(d, shard_dir_of(b, n).push(name)) && ends_with(name, ".vpk"@)
}

/// A listed file, with the shard that it is in.
pub open spec fn lists(files: Seq<VpkFileView>, n: nat, name: Seq<char>) -> bool {
    exists|i: int|
        0 <= i < files.len() && (#[trigger] files[i]).shard == n && files[i].filename == name
}

/// Listed files come shard by shard, and by name within a shard.
pub open spec fn in_order(files: Seq<VpkFileView>) -> bool {
    forall|i: int, j: int|
        0 <= i < j < files.len() ==> (#[trigger] files[i]).shard < (#[trigger] files[j]).shard || (
        files[i].shard == files[j].shard && text_before(files[i].filename, files[j].filename))
}

spec fn lists_first(files: Seq<VpkFileView>, d: DiskView, b: BaseView, k: int) -> bool {
    forall|n: nat, name: Seq<char>| #[trigger]
        lists(files, n, name) <==> existing_of(d, b).take(k).contains(n) && holds_file(
            d,
            b,
            n,
            name,
        )
}

proof fn lemma_shard_files(d: DiskView, dir: PathView, n: nat)
    requires
        d.dom().finite(),
    ensures
        forall|m: nat, name: Seq<char>| #[trigger]
            lists(shard_files(d, dir, n), m, name) <==> m == n && is_file_at(d, dir.push(name))
                && ends_with(name, ".vpk"@),
        forall|i: int|
            0 <= i < shard_files(d, dir, n).len() ==> (#[trigger] shard_files(
                d,
                dir,
                n,
            )[i]).locator == wire_of(
                LocatorView { shard: n, filename: shard_files(d, dir, n)[i].filename },
            ),
        in_order(shard_files(d, dir, n)),
{
    lemma_finite_has_order::<TreePath, NodeView>(d);
    lemma_names_in(d, dir);
    let names = names_in(d, dir);
    let kept = names.filter(|f: Seq<char>| is_vpk_in(d, dir, f));
    lemma_filter_members(names, |f: Seq<char>| is_vpk_in(d, dir, f));
    let files = shard_files(d, dir, n);
    lemma_filter_in_order::<String>(names, |f: Seq<char>| is_vpk_in(d, dir, f));
    assert forall|i: int, j: int| 0 <= i < j < files.len() implies (#[trigger] files[i]).shard < (
    #[trigger] files[j]).shard || (files[i].shard == files[j].shard && text_before(
        files[i].filename,
        files[j].filename,
    )) by {
        assert(files[i] == vpk_file(n, kept[i]));
        assert(files[j] == vpk_file(n, kept[j]));
        assert(String::before(kept[i], kept[j]));
    }
    assert forall|m: nat, name: Seq<char>| #[trigger] lists(files, m, name) <==> m == n
        && is_file_at(d, dir.push(name)) && ends_with(name, ".vpk"@) by {
        if lists(files, m, name) {
            let i = choose|i: int|
                0 <= i < files.len() && (#[trigger] files[i]).shard == m && files[i].filename
                    == name;
            assert(files[i] == vpk_file(n, kept[i]));
            assert(kept.contains(kept[i]));
        }
        if m == n && is_file_at(d, dir.push(name)) && ends_with(name, ".vpk"@) {
            assert(names.contains(name));
            assert(kept.contains(name));
            let i = choose|i: int| 0 <= i < kept.len() && kept[i] == name;
            assert(files[i] == vpk_file(n, name));
        }
    }
}

proof fn lemma_files_first(d: DiskView, b: BaseView, k: int)
    requires
        d.dom().finite(),
        0 <= k <= existing_of(d, b).len(),
        files_first(d, b, k) is Ok,
    ensures
        lists_first(files_first(d, b, k)->Ok_0, d, b, k),
        in_order(files_first(d, b, k)->Ok_0),
        forall|i: int|
            0 <= i < files_first(d, b, k)->Ok_0.len() ==> (#[trigger] files_first(
                d,
                b,
                k,
            )->Ok_0[i]).locator == wire_of(
                LocatorView {
                    shard: files_first(d, b, k)->Ok_0[i].shard,
                    filename: files_first(d, b, k)->Ok_0[i].filename,
                },
            ),
    decreases k,
{
    let all = existing_of(d, b);
    lemma_existing(d, b, MAX_SHARDS as nat);
    let files = files_first(d, b, k)->Ok_0;
    if k == 0 {
        assert forall|n: nat, name: Seq<char>| #[trigger] lists(files, n, name) <==> all.take(
            k,
        ).contains(n) && holds_file(d, b, n, name) by {
            assert(!all.take(0).contains(n));
        }
    } else {
        lemma_files_first(d, b, k - 1);
        let before = files_first(d, b, k - 1)->Ok_0;
        let m = all[k - 1];
        let own = shard_files(d, shard_dir_of(b, m), m);
        lemma_shard_files(d, shard_dir_of(b, m), m);
        assert(files == before + own);
        assert(all.take(k) =~= all.take(k - 1).push(m));
        assert forall|n: nat, name: Seq<char>| #[trigger] lists(files, n, name) <==> all.take(
            k,
        ).contains(n) && holds_file(d, b, n, name) by {
            assert(lists(before, n, name) <==> all.take(k - 1).contains(n) && holds_file(
                d,
                b,
                n,
                name,
            ));
            assert(lists(own, n, name) <==> n == m && is_file_at(
                d,
                shard_dir_of(b, m).push(name),
            ) && ends_with(name, ".vpk"@));
            if lists(files, n, name) {
                let i = choose|i: int|
                    0 <= i < files.len() && (#[trigger] files[i]).shard == n && files[i].filename
                        == name;
                if i < before.len() {
                    assert(before[i] == files[i]);
                    let short = all.take(k - 1);
                    let j = choose|j: int| 0 <= j < short.len() && short[j] == n;
                    assert(all.take(k)[j] == n);
                } else {
                    assert(own[i - before.len()] == files[i]);
                    assert(all.take(k)[k - 1] == n);
                }
            }
            if all.take(k).contains(n) && holds_file(d, b, n, name) {
                let long = all.take(k);
                let j = choose|j: int| 0 <= j < long.len() && long[j] == n;
                if j < k - 1 {
                    assert(all.take(k - 1)[j] == n);
                    let i = choose|i: int|
                        0 <= i < before.len() && (#[trigger] before[i]).shard == n
                            && before[i].filename == name;
                    assert(files[i] == before[i]);
                } else {
                    let i = choose|i: int|
                        0 <= i < own.len() && (#[trigger] own[i]).shard == n && own[i].filename
                            == name;
                    assert(files[before.len() + i] == own[i]);
                }
            }
        }
        assert forall|i: int, j: int| 0 <= i < j < files.len() implies (
        #[trigger] files[i]).shard < (#[trigger] files[j]).shard || (files[i].shard
            == files[j].shard && text_before(files[i].filename, files[j].filename)) by {
            if j < before.len() {
                assert(files[i] == before[i] && files[j] == before[j]);
            } else if i >= before.len() {
                assert(files[i] == own[i - before.len()]);
                assert(files[j] == own[j - before.len()]);
            } else {
                assert(files[i] == before[i]);
                assert(files[j] == own[j - before.len()]);
                assert(lists(before, files[i].shard, files[i].filename));
                assert(lists(own, files[j].shard, files[j].filename));
                let short = all.take(k - 1);
                let x = choose|x: int| 0 <= x < short.len() && short[x] == files[i].shard;
                assert(all[x] < all[k - 1]);
            }
        }
        assert forall|i: int| 0 <= i < files.len() implies (#[trigger] files[i]).locator
            == wire_of(LocatorView { shard: files[i].shard, filename: files[i].filename }) by {
            if i < before.len() {
                assert(files[i] == before[i]);
            } else {
                assert(files[i] == own[i - before.len()]);
            }
        }
    }
}

/// The files that are listed of a profile are its VPK files, of every shard, and no others;
/// shard by shard and in the order of their names, each with the locator that leads back to it.
/// A profile that is not there has none, and
/// without a game nothing is listed.
pub proof fn law_every_vpk_of_a_profile_is_listed(
    d: DiskView,
    game: PathView,
    folder: Option<Seq<char>>,
    b: BaseView,
)
    requires
        d.dom().finite(),
        base_of(folder_path(game, folder), true) == Some(b),
        forall|n: nat|
            valid_shard(n) && exists_at(d, #[trigger] shard_dir_of(b, n)) ==> is_dir_at(
                d,
                shard_dir_of(b, n),
            ),
    ensures
        ({
            let r = profile_files(d, Some(game), folder);
            let there = exists_at(d, folder_path(game, folder));
            &&& r is Ok
            &&& in_order(r->Ok_0)
            &&& forall|n: nat, name: Seq<char>| #[trigger]
                lists(r->Ok_0, n, name) ==> there && holds_file(d, b, n, name)
            &&& forall|n: nat, name: Seq<char>| #[trigger]
                holds_file(d, b, n, name) && there && exists_at(d, shard_dir_of(b, n)) ==> lists(
                    r->Ok_0,
                    n,
                    name,
                )
            &&& forall|i: int|
                0 <= i < r->Ok_0.len() && plain_name((#[trigger] r->Ok_0[i]).filename)
                    ==> locator_of(r->Ok_0[i].locator) == Some(
                    LocatorView { shard: r->Ok_0[i].shard, filename: r->Ok_0[i].filename },
                )
        }),
        profile_files(d, None, folder) == Err::<Seq<VpkFileView>, ErrorView>(
            ErrorView::GamePathNotSet,
        ),
{
    let r = profile_files(d, Some(game), folder);
    let there = exists_at(d, folder_path(game, folder));
    let all = existing_of(d, b);
    lemma_existing(d, b, MAX_SHARDS as nat);
    if there {
        lemma_all_dirs(d, b, all.len() as int);
        lemma_files_first(d, b, all.len() as int);
        let files = r->Ok_0;
        assert(all.take(all.len() as int) =~= all);
        assert forall|n: nat, name: Seq<char>| #[trigger] holds_file(d, b, n, name) && exists_at(
            d,
            shard_dir_of(b, n),
        ) implies lists(files, n, name) by {
            assert(all.contains(n));
        }
        assert forall|i: int| 0 <= i < files.len() && plain_name((#[trigger] files[i]).filename)
            implies locator_of(files[i].locator) == Some(
            LocatorView { shard: files[i].shard, filename: files[i].filename },
        ) by {
            let l = LocatorView { shard: files[i].shard, filename: files[i].filename };
            assert(lists(files, l.shard, l.filename));
            law_locators_round_trip(l);
        }
    }
}

proof fn lemma_all_dirs(d: DiskView, b: BaseView, k: int)
    requires
        0 <= k <= existing_of(d, b).len(),
        forall|n: nat|
            valid_shard(n) && exists_at(d, #[trigger] shard_dir_of(b, n)) ==> is_dir_at(
                d,
                shard_dir_of(b, n),
            ),
    ensures
        files_first(d, b, k) is Ok,
        vpks_first(d, b, k) is Ok,
    decreases k,
{
    if k > 0 {
        lemma_all_dirs(d, b, k - 1);
        lemma_existing(d, b, MAX_SHARDS as nat);
        let n = existing_of(d, b)[k - 1];
        assert(is_dir_at(d, shard_dir_of(b, n)));
    }
}

/// Something named like a VPK stands in shard `n` of a profile.
pub open spec fn holds_vpk_name(d: DiskView, b: BaseView, n: nat, name: Seq<char>) -> bool {
    valid_shard(n) && is_dir_at(d, shard_dir_of(b, n)) && exists_at(
        d,
        shard_dir_of(b, n).push(name),
    ) && vpk_name(name)
}

proof fn lemma_vpks_first(d: DiskView, b: BaseView, k: int)
    requires
        d.dom().finite(),
        0 <= k <= existing_of(d, b).len(),
        vpks_first(d, b, k) is Ok,
        forall|n: nat|
            valid_shard(n) && exists_at(d, #[trigger] shard_dir_of(b, n)) ==> is_dir_at(
                d,
                shard_dir_of(b, n),
            ),
    ensures
        vpks_first(d, b, k)->Ok_0 ==> exists|n: nat, name: Seq<char>| #[trigger]
            holds_vpk_name(d, b, n, name),
        !vpks_first(d, b, k)->Ok_0 ==> forall|j: int, name: Seq<char>|
            0 <= j < k ==> !#[trigger] holds_vpk_name(d, b, existing_of(d, b)[j], name),
    decreases k,
{
    if k > 0 {
        let all = existing_of(d, b);
        lemma_existing(d, b, MAX_SHARDS as nat);
        lemma_all_dirs(d, b, k - 1);
        lemma_vpks_first(d, b, k - 1);
        let m = all[k - 1];
        let dir = shard_dir_of(b, m);
        lemma_finite_has_order::<TreePath, NodeView>(d);
        lemma_names_in(d, dir);
        if vpks_first(d, b, k - 1) == Ok::<bool, ErrorView>(false) {
            if vpks_first(d, b, k)->Ok_0 {
                let f = choose|f: Seq<char>| #[trigger]
                    names_in(d, dir).contains(f) && vpk_name(f);
                assert(holds_vpk_name(d, b, m, f));
            } else {
                assert forall|j: int, name: Seq<char>| 0 <= j < k implies !#[trigger] holds_vpk_name(
                    d,
                    b,
                    all[j],
                    name,
                ) by {
                    if j == k - 1 && holds_vpk_name(d, b, m, name) {
                        assert(names_in(d, dir).contains(name));
                    }
                }
            }
        }
    }
}

/// A profile has addons just where something named like a VPK stands in one of its shards.
pub proof fn law_addons_are_found_where_vpks_stand(
    d: DiskView,
    game: PathView,
    folder: Option<Seq<char>>,
    b: BaseView,
)
    requires
        d.dom().finite(),
        base_of(folder_path(game, folder), true) == Some(b),
        exists_at(d, folder_path(game, folder)),
        forall|n: nat|
            valid_shard(n) && exists_at(d, #[trigger] shard_dir_of(b, n)) ==> is_dir_at(
                d,
                shard_dir_of(b, n),
            ),
    ensures
        addons_found(d, Some(game), folder) == Ok::<bool, ErrorView>(
            exists|n: nat, name: Seq<char>| #[trigger] holds_vpk_name(d, b, n, name),
        ),
{
    let all = existing_of(d, b);
    lemma_existing(d, b, MAX_SHARDS as nat);
    lemma_all_dirs(d, b, all.len() as int);
    lemma_vpks_first(d, b, all.len() as int);
    if exists|n: nat, name: Seq<char>| #[trigger] holds_vpk_name(d, b, n, name) {
        let (n, name) = choose|n: nat, name: Seq<char>| #[trigger] holds_vpk_name(d, b, n, name);
        assert(all.contains(n));
        let j = choose|j: int| 0 <= j < all.len() && all[j] == n;
        assert(holds_vpk_name(d, b, all[j], name));
    }
}

/// The profiles that are listed are the directories among the addons whose name says so,
/// in the order of their names.
pub proof fn law_every_profile_is_listed(d: DiskView, game: PathView)
    requires
        d.dom().finite(),
        is_dir_at(d, addons_root(game)),
    ensures
        profiles_listed(d, Some(game)) is Ok,
        forall|name: Seq<char>| #[trigger]
            profiles_listed(d, Some(game))->Ok_0.contains(name) <==> is_dir_at(
                d,
                addons_root(game).push(name),
            ) && starts_with(name, "profile_"@),
        ascending::<String>(profiles_listed(d, Some(game))->Ok_0),
{
    let dir = addons_root(game);
    lemma_finite_has_order::<TreePath, NodeView>(d);
    lemma_names_in(d, dir);
    lemma_filter_in_order::<String>(
        names_in(d, dir),
        |n: Seq<char>| is_profile_in(d, dir, n),
    );
    lemma_filter_members(names_in(d, dir), |n: Seq<char>| is_profile_in(d, dir, n));
}

/// A file that a mod has, enabled in its shard or disabled in the first one, is not deleted
/// as a file of none; any other may be. Either way the tree is only read.
pub proof fn law_files_of_mods_are_not_deleted(d: DiskView, l: LocatedView, m: ManifestView)
    requires
        loaded(d, l.base.path).1 == Ok::<ManifestView, ErrorView>(m),
    ensures
        deletion_decided(d, l).0 == loaded(d, l.base.path).0,
        deletion_decided(d, l).1 is Err <==> exists|id: Seq<char>| #[trigger]
            m.mods.contains_key(id) && ((m.mods[id].enabled && m.mods[id].shard == l.shard
                && m.mods[id].current.contains(l.filename)) || (!m.mods[id].enabled && l.shard == 1
                && m.mods[id].disabled.contains(l.filename))),
        deletion_decided(d, l).1 is Err ==> deletion_decided(d, l).1->Err_0 is ModInvalid,
{
    let managed = is_managed(m, l.shard, l.filename);
    if managed {
        let id = choose|id: Seq<char>| #[trigger]
            m.mods.contains_key(id) && owns_file(m.mods[id], l.shard, l.filename);
        assert(m.mods.contains_key(id));
    }
    if exists|id: Seq<char>| #[trigger]
        m.mods.contains_key(id) && ((m.mods[id].enabled && m.mods[id].shard == l.shard
            && m.mods[id].current.contains(l.filename)) || (!m.mods[id].enabled && l.shard == 1
            && m.mods[id].disabled.contains(l.filename))) {
        let id = choose|id: Seq<char>| #[trigger]
            m.mods.contains_key(id) && ((m.mods[id].enabled && m.mods[id].shard == l.shard
                && m.mods[id].current.contains(l.filename)) || (!m.mods[id].enabled && l.shard == 1
                && m.mods[id].disabled.contains(l.filename)));
        assert(owns_file(m.mods[id], l.shard, l.filename));
    }
}

/// The locator of a file leads to the place of that file in its shard.
pub proof fn law_locators_lead_to_their_files(
    game: PathView,
    folder: Option<Seq<char>>,
    b: BaseView,
    n: nat,
    name: Seq<char>,
)
    requires
        profile_base(Some(game), folder) == Ok::<BaseView, ErrorView>(b),
        valid_shard(n),
        plain_name(name),
        ends_with(lowercase(name), ".vpk"@),
        !contains_text(name, "/"@),
        !contains_text(wire_of(LocatorView { shard: n, filename: name }), "\\"@),
        !contains_text(wire_of(LocatorView { shard: n, filename: name }), ".."@),
    ensures
        vpk_located(Some(game), folder, wire_of(LocatorView { shard: n, filename: name })) == Ok::<
            LocatedView,
            ErrorView,
        >(
            LocatedView {
                dir: shard_dir_of(b, n),
                path: shard_dir_of(b, n).push(name),
                base: b,
                shard: n,
                filename: name,
            },
        ),
{
    law_locators_round_trip(LocatorView { shard: n, filename: name });
    lemma_join_plain(shard_dir_of(b, n), name);
}

/// A text without marks at its ends is a part of the text it is made of: only marks are taken
/// away, and it neither begins nor ends with one.
pub proof fn law_only_marks_are_trimmed(s: Seq<char>) -> (ends: (int, int))
    ensures
        0 <= ends.0 <= ends.1 <= s.len(),
        without_marks(s) == s.subrange(ends.0, ends.1),
        forall|i: int|
            (0 <= i < ends.0 || ends.1 <= i < s.len()) ==> (#[trigger] s[i]) == '-' || s[i] == '_',
        ends.0 < ends.1 ==> s[ends.0] != '-' && s[ends.0] != '_' && s[ends.1 - 1] != '-'
            && s[ends.1 - 1] != '_',
{
    lemma_mark_start(s, 0);
    lemma_mark_end(s, s.len() as int);
    let a = mark_start(s, 0);
    let b = mark_end(s, s.len() as int);
    if a < b {
        (a, b)
    } else {
        assert(s.subrange(0, 0) =~= Seq::<char>::empty());
        assert forall|i: int| 0 <= i < s.len() implies (#[trigger] s[i]) == '-' || s[i] == '_' by {
            if i >= a {
                assert(i >= b);
            }
        }
        (0, 0)
    }
}

proof fn lemma_mark_start(s: Seq<char>, k: int)
    requires
        0 <= k <= s.len(),
    ensures
        k <= mark_start(s, k) <= s.len(),
        forall|i: int|
            k <= i < mark_start(s, k) ==> (#[trigger] s[i]) == '-' || s[i] == '_',
        mark_start(s, k) < s.len() ==> s[mark_start(s, k)] != '-' && s[mark_start(s, k)] != '_',
    decreases s.len() - k,
{
    if k < s.len() && is_mark(s[k]) {
        lemma_mark_start(s, k + 1);
    }
}

proof fn lemma_mark_end(s: Seq<char>, k: int)
    requires
        0 <= k <= s.len(),
    ensures
        0 <= mark_end(s, k) <= k,
        forall|i: int| mark_end(s, k) <= i < k ==> (#[trigger] s[i]) == '-' || s[i] == '_',
        mark_end(s, k) > 0 ==> s[mark_end(s, k) - 1] != '-' && s[mark_end(s, k) - 1] != '_',
    decreases k,
{
    if k > 0 && is_mark(s[k - 1]) {
        lemma_mark_end(s, k - 1);
    }
}

/// In the folder of a profile letters, digits and the signs that a search path can hold are
/// kept, white space becomes a hyphen and anything else an underscore; the id stands in front.
pub proof fn law_folders_are_named_after_their_profiles(id: Seq<char>, name: Seq<char>)
    ensures
        ({
            let text = lowercase(name);
            let shown = Seq::new(
                text.len(),
                |i: int|
                    if search_path_char(text[i]) {
                        text[i]
                    } else if whitespace(text[i]) {
                        '-'
                    } else {
                        '_'
                    },
            );
            profile_folder_name(id, name) == id + "_"@ + without_marks(shown)
        }),
{
    let text = lowercase(name);
    let shown = Seq::new(
        text.len(),
        |i: int|
            if search_path_char(text[i]) {
                text[i]
            } else if whitespace(text[i]) {
                '-'
            } else {
                '_'
            },
    );
    assert(text.map_values(|c: char| folder_char(c, whitespace(c))) =~= shown);
}

/// Where the addons of a game are there, a profile can always be made in them.
pub proof fn law_profiles_can_be_made(d: DiskView, game: PathView, id: Seq<char>, name: Seq<char>)
    requires
        rooted(d),
        is_dir_at(d, addons_root(game)),
        plain_name(profile_folder_name(id, name)),
    ensures
        profile_made(d, Some(game), id, name).1 == Ok::<Seq<char>, ErrorView>(
            profile_folder_name(id, name),
        ),
{
    let p = addons_root(game);
    let q = p.push(profile_folder_name(id, name));
    lemma_join_plain(p, profile_folder_name(id, name));
    lemma_dirs_there(d, p);
    if !exists_at(d, q) {
        assert forall|k: int| 0 <= k <= q.len() implies !is_file_at(d, #[trigger] q.take(k)) by {
            if k <= p.len() {
                assert(q.take(k) =~= p.take(k));
            } else {
                assert(q.take(k) =~= q);
            }
        }
    }
}

/// A profile that was made has its folder among the addons, a new one if nothing stood there;
/// a second one of the same name changes nothing.
pub proof fn law_made_profiles_are_there(d: DiskView, game: PathView, id: Seq<char>, name: Seq<char>)
    requires
        plain_name(profile_folder_name(id, name)),
        profile_made(d, Some(game), id, name).1 is Ok,
    ensures
        ({
            let (e, r) = profile_made(d, Some(game), id, name);
            let place = addons_root(game).push(r->Ok_0);
            &&& r->Ok_0 == profile_folder_name(id, name)
            &&& exists_at(e, place)
            &&& !exists_at(d, place) ==> is_dir_at(e, place)
            &&& profile_made(e, Some(game), id, name) == (e, r)
        }),
{
    lemma_join_plain(addons_root(game), profile_folder_name(id, name));
}

/// Only what is named like a profile, and is no path, is deleted; anything else is refused
/// and nothing changes.
pub proof fn law_only_profiles_are_deleted(d: DiskView, game: Option<PathView>, folder: Seq<char>)
    requires
        !starts_with(folder, "profile_"@) || contains_text(folder, ".."@) || contains_text(
            folder,
            "/"@,
        ) || contains_text(folder, "\\"@),
    ensures
        profile_deleted(d, game, folder).0 == d,
        profile_deleted(d, game, folder).1 is Err,
        profile_deleted(d, game, folder).1->Err_0 is InvalidInput,
{
}

/// Of a mod on record its first file is shown if it stands in the shard of the mod, else the
/// directory of that shard. A mod that is not on record is not shown.
pub proof fn law_mods_are_shown_in_their_shards(
    d: DiskView,
    game: PathView,
    folder: Option<Seq<char>>,
    b: BaseView,
    m: ManifestView,
    id: Seq<char>,
    files: Seq<Seq<char>>,
)
    requires
        profile_base(Some(game), folder) == Ok::<BaseView, ErrorView>(b),
        loaded(d, b.path).1 == Ok::<ManifestView, ErrorView>(m),
    ensures
        ({
            let (e, r) = mod_shown(d, Some(game), folder, id, files);
            let dir = shard_dir_of(b, m.mods[id].shard);
            let first = files.len() > 0 && plain_name(files[0]) && exists_at(e, dir.push(files[0]));
            &&& e == loaded(d, b.path).0
            &&& m.mods.contains_key(id) && first && exists_at(e, dir) ==> r == Ok::<
                ShownView,
                ErrorView,
            >(ShownView::File(dir.push(files[0])))
            &&& m.mods.contains_key(id) && files.len() == 0 && exists_at(e, dir) ==> r == Ok::<
                ShownView,
                ErrorView,
            >(ShownView::Folder(dir))
            &&& m.mods.contains_key(id) && files.len() > 0 && plain_name(files[0]) && !first
                && exists_at(e, dir) ==> r == Ok::<ShownView, ErrorView>(ShownView::Folder(dir))
            &&& r is Ok <==> m.mods.contains_key(id) && exists_at(e, dir)
        }),
{
    if files.len() > 0 && plain_name(files[0]) {
        lemma_join_plain(shard_dir_of(b, m.mods[id].shard), files[0]);
    }
}

/// The report on a profile expects just the search paths that are written for it, and calls
/// for a migration just where one would do something.
pub proof fn law_reports_expect_what_is_written(
    d: DiskView,
    game: Option<PathView>,
    folder: Option<Seq<char>>,
    gameinfo: Seq<Seq<char>>,
)
    requires
        diagnosed(d, game, folder, Ok(gameinfo)).1 is Ok,
    ensures
        ({
            let (e, r) = diagnosed(d, game, folder, Ok(gameinfo));
            &&& paths_read(d, game, folder) == (e, Ok::<Seq<Seq<char>>, ErrorView>(
                r->Ok_0.expected_search_paths,
            ))
            &&& r->Ok_0.gameinfo_search_paths == gameinfo
            &&& r->Ok_0.needs_migration == migration_needed(e, profile_base(game, folder)->Ok_0)
        }),
{
}

/// The first of some seeds for a mod.
pub open spec fn first_seed(seeds: Seq<SeedView>, i: int) -> bool {
    0 <= i < seeds.len() && forall|j: int|
        0 <= j < i ==> (#[trigger] seeds[j]).mod_id != seeds[i].mod_id
}

proof fn lemma_seeded(m: ManifestView, seeds: Seq<SeedView>, k: int, i: int)
    requires
        first_seed(seeds, i),
        0 <= k <= seeds.len(),
        !m.mods.contains_key(seeds[i].mod_id),
    ensures
        k <= i ==> !seeded_first(m, seeds, k).mods.contains_key(seeds[i].mod_id),
        k > i ==> seeded_first(m, seeds, k).mods.contains_key(seeds[i].mod_id) && seed_recorded(
            seeded_first(m, seeds, k).mods[seeds[i].mod_id],
            seeds[i].entry,
        ),
    decreases k,
{
    if k > 0 {
        lemma_seeded(m, seeds, k - 1, i);
        let seed = seeds[i].entry;
        assert(seed.original.len() == 0 ==> seed.original =~= Seq::<Seq<char>>::empty());
    }
}

/// What is recorded of a mod that was seeded: enabled where it is, or disabled with the files
/// that it has.
pub open spec fn seed_recorded(e: EntryView, seed: EntryView) -> bool {
    &&& e.enabled == seed.enabled
    &&& e.original == seed.original
    &&& seed.enabled ==> e.current == seed.current && e.shard == seed.shard && e.order
        == seed.order && e.disabled.len() == 0
    &&& !seed.enabled ==> e.disabled == seed.disabled && e.shard == 1 && e.order is None
        && e.current.len() == 0
}

/// A mod that was not on record is recorded as its first seed says; what was on record stays
/// as it was.
pub proof fn law_seeded_mods_are_recorded(
    d: DiskView,
    game: PathView,
    folder: Option<Seq<char>>,
    b: BaseView,
    seeds: Seq<SeedView>,
    i: int,
)
    requires
        profile_base(Some(game), folder) == Ok::<BaseView, ErrorView>(b),
        manifest_seeded(d, Some(game), folder, seeds).1 is Ok,
        first_seed(seeds, i),
    ensures
        ({
            let e = manifest_seeded(d, Some(game), folder, seeds).0;
            let before = loaded(d, b.path).1->Ok_0.mods;
            let after = mods_on_record(e, b.path);
            let id = seeds[i].mod_id;
            !before.contains_key(id) ==> after.contains_key(id) && seed_recorded(
                after[id],
                seeds[i].entry,
            ) && forall|other: Seq<char>| #[trigger]
                before.contains_key(other) ==> after.contains_key(other) && after[other]
                    == before[other]
        }),
{
    let (d1, l) = loaded(d, b.path);
    let m = l->Ok_0;
    let n = seeds.len() as int;
    if !m.mods.contains_key(seeds[i].mod_id) {
        lemma_seeded(m, seeds, n, i);
        assert(seeds_new(m, seeds, n));
        lemma_saved(d1, b.path, seeded_first(m, seeds, n));
        assert forall|other: Seq<char>| #[trigger] m.mods.contains_key(other) implies seeded_first(
            m,
            seeds,
            n,
        ).mods.contains_key(other) && seeded_first(m, seeds, n).mods[other] == m.mods[other] by {
            law_seeding_keeps_recorded_mods(m, seeds, other);
        }
    }
}

/// Every mod of the manifest that is returned for a profile is known then.
pub proof fn law_mods_of_a_manifest_are_known(
    d: DiskView,
    m: ManagerView,
    folder: Option<Seq<char>>,
    id: Seq<char>,
)
    requires
        manifest_read(d, m, folder).2 is Ok,
        manifest_read(d, m, folder).2->Ok_0.mods.contains_key(id),
        ({
            let d1 = profile_migrated(d, m, folder).0;
            let p = profile_base(m.game_path, folder)->Ok_0.path;
            rooted(d1) && d1.dom().finite() && manifest_stays(d1, p)
        }),
    ensures
        manifest_read(d, m, folder).1.contains_key(id),
{
    let d1 = profile_migrated(d, m, folder).0;
    let p = profile_base(m.game_path, folder)->Ok_0.path;
    law_reading_again_gives_the_same(d1, p);
}

/// Switching to a profile migrates it if needed, and tells the search paths that it needs from
/// then on; where nothing is to be migrated it changes no more than reading does.
pub proof fn law_switching_tells_the_search_paths(
    d: DiskView,
    m: ManagerView,
    folder: Option<Seq<char>>,
    b: BaseView,
)
    requires
        profile_base(m.game_path, folder) == Ok::<BaseView, ErrorView>(b),
    ensures
        ({
            let (e, repo, r) = profile_switched(d, m, folder);
            let (d1, repo1, done) = profile_migrated(d, m, folder);
            &&& done is Ok ==> (e, r) == paths_read(d1, m.game_path, folder) && repo == repo1
            &&& done is Err ==> r is Err && e == d1 && repo == repo1
            &&& !migration_needed(d, b) ==> (e, r) == paths_read(d, m.game_path, folder) && repo
                == m.repo
        }),
{
}

} // verus!
