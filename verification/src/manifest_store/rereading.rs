//! Reading a manifest twice gives the same.
use super::{
    clear_recovered, lemma_manifest_names_differ, lemma_no_updates, loaded, manifest_at,
    manifest_path, manifest_temp_path, nothing_staged, pending_recovered, reorder_recovered,
    temp_settled, update_recovered, updates_recovered,
};
use crate::disk::{
    can_rename, exists_at, is_dir_at, is_file_at, law_changes_keep_the_tree_rooted,
    lemma_below_exists, lemma_names_in, lemma_rooted_at, lemma_with_dirs, names_in, rename_op,
    rooted, same_at, with_dirs, without_tree, DiskView, NodeView, OpView,
};
use crate::error::ErrorView;
use crate::path::{path_parent, PathView, TreePath};
use crate::shard::{
    base_of, base_ok, lemma_base_ok, lemma_last_addons, shard_dir_of, staged_of, BaseView,
    CLEAR_STAGING_DIR, REORDER_STAGING_DIR, UPDATE_STAGING_PREFIX,
};
use crate::table::lemma_finite_has_order;
use crate::text::{starts_with, strip_prefix_spec};
use crate::vpk_manager::naming::pak_name;
use crate::vpk_manager::setting_aside::{law_recovery_overwrites_nothing, lemma_recovery_keeps};
use crate::vpk_manager::staging::{recover_first, recover_one, recovered, RecoveryMode};
use crate::vpk_manifest::{ManifestView, MANIFEST_FILENAME, MANIFEST_TEMP_FILENAME};
use vstd::prelude::*;

verus! {

/// What is set aside at `stage` are files, and none goes back under the name of the
/// manifest or of its temporary file.
pub open spec fn files_aside(d: DiskView, stage: PathView) -> bool {
    forall|name: Seq<char>| #[trigger]
        d.contains_key(stage.push(name)) ==> is_file_at(d, stage.push(name))
            && goes_back_elsewhere(name)
}

/// What is set aside under this name does not go back under the name of the manifest
/// or of its temporary file.
pub open spec fn goes_back_elsewhere(name: Seq<char>) -> bool {
    match staged_of(name) {
        Ok(l) => l.filename != MANIFEST_FILENAME@ && l.filename != MANIFEST_TEMP_FILENAME@,
        Err(_) => true,
    }
}

/// So it is in every directory of a profile.
pub open spec fn all_aside(d: DiskView, p: PathView) -> bool {
    forall|s: Seq<char>| #[trigger]
        is_dir_at(d, p.push(s)) && internal(s) ==> files_aside(d, p.push(s))
}

/// The name of a directory in which files are set aside.
pub open spec fn internal(s: Seq<char>) -> bool {
    s == CLEAR_STAGING_DIR@ || s == REORDER_STAGING_DIR@ || starts_with(s, UPDATE_STAGING_PREFIX@)
}

/// The manifest is as it was, no directory was added to the profile `p`, and nothing
/// was added below those that are there.
pub open spec fn only_put_back(d: DiskView, e: DiskView, p: PathView) -> bool {
    &&& same_at(d, e, manifest_path(p))
    &&& same_at(d, e, manifest_temp_path(p))
    &&& forall|q: PathView| #![trigger e.contains_key(q)]
        q.len() == p.len() + 1 && is_dir_at(e, q) ==> is_dir_at(d, q)
    &&& forall|q: PathView| #![trigger e.contains_key(q)]
        q.len() >= p.len() + 2 && e.contains_key(q) ==> d.contains_key(q) && d[q] == e[q]
}

proof fn lemma_put_back_trans(a: DiskView, b: DiskView, c: DiskView, p: PathView)
    requires
        only_put_back(a, b, p),
        only_put_back(b, c, p),
    ensures
        only_put_back(a, c, p),
{
    assert forall|q: PathView| #![trigger c.contains_key(q)]
        q.len() == p.len() + 1 && is_dir_at(c, q) implies is_dir_at(a, q) by {
        assert(b.contains_key(q));
    }
    assert forall|q: PathView| #![trigger c.contains_key(q)]
        q.len() >= p.len() + 2 && c.contains_key(q) implies a.contains_key(q) && a[q] == c[q] by {
        assert(b.contains_key(q));
    }
}

proof fn lemma_still_aside(d: DiskView, e: DiskView, p: PathView)
    requires
        only_put_back(d, e, p),
        all_aside(d, p),
    ensures
        all_aside(e, p),
{
    assert forall|s: Seq<char>| #[trigger] is_dir_at(e, p.push(s)) && internal(s) implies files_aside(
        e,
        p.push(s),
    ) by {
        assert(e.contains_key(p.push(s)));
        assert(is_dir_at(d, p.push(s)));
        assert forall|name: Seq<char>| #[trigger]
            e.contains_key(p.push(s).push(name)) implies is_file_at(e, p.push(s).push(name))
            && goes_back_elsewhere(name) by {
            assert(d.contains_key(p.push(s).push(name)));
        }
    }
}

proof fn lemma_pak_is_no_manifest(n: nat)
    ensures
        pak_name(n) != MANIFEST_FILENAME@,
        pak_name(n) != MANIFEST_TEMP_FILENAME@,
{
    reveal_strlit("pak0");
    reveal_strlit("pak");
    reveal_strlit(".dmm.json");
    reveal_strlit(".dmm.json.tmp");
    assert(pak_name(n)[0] == 'p');
}

/// Putting one file back.
proof fn lemma_one_back(
    d: DiskView,
    b: BaseView,
    stage: PathView,
    name: Seq<char>,
    mode: RecoveryMode,
)
    requires
        rooted(d),
        d.dom().finite(),
        base_ok(b),
        stage.len() == b.path.len() + 1,
        d.contains_key(stage.push(name)) ==> is_file_at(d, stage.push(name)),
        goes_back_elsewhere(name),
        recover_one(d, b, stage, name, mode).1 is Ok,
    ensures
        ({
            let e = recover_one(d, b, stage, name, mode).0;
            only_put_back(d, e, b.path) && rooted(e) && e.dom().finite()
        }),
{
    let p = b.path;
    let e = recover_one(d, b, stage, name, mode).0;
    let l = staged_of(name)->Ok_0;
    let dir = shard_dir_of(b, l.shard);
    let d1 = with_dirs(d, dir);
    let source = stage.push(name);
    assert(dir.len() == p.len());
    lemma_with_dirs(d, dir);
    let target = crate::vpk_manager::staging::recovered_name(d1, dir, name, l.filename, mode)->Ok_0;
    let place = dir.push(target);
    assert forall|n: nat| target == #[trigger] pak_name(n) implies target != MANIFEST_FILENAME@
        && target != MANIFEST_TEMP_FILENAME@ by {
        lemma_pak_is_no_manifest(n);
    }
    assert forall|q: PathView| q.len() > p.len() implies #[trigger] d1.contains_key(q)
        == d.contains_key(q) by {
        if q.is_prefix_of(dir) {
            assert(q.len() <= dir.len());
        }
    }
    assert(can_rename(d1, source, place));
    assert(d1.contains_key(source));
    assert(is_file_at(d1, source));
    assert(rename_op(d1, source, place) == OpView::Move(source, place));
    law_changes_keep_the_tree_rooted(d1, OpView::Move(source, place));
    let main = manifest_path(p);
    let temp = manifest_temp_path(p);
    assert(place.last() == target);
    assert(main.last() == MANIFEST_FILENAME@);
    assert(temp.last() == MANIFEST_TEMP_FILENAME@);
    assert(same_at(d, e, main));
    assert(same_at(d, e, temp));
}

proof fn lemma_files_back(
    d: DiskView,
    b: BaseView,
    stage: PathView,
    names: Seq<Seq<char>>,
    mode: RecoveryMode,
    k: int,
)
    requires
        rooted(d),
        d.dom().finite(),
        base_ok(b),
        stage.len() == b.path.len() + 1,
        names == names_in(d, stage),
        files_aside(d, stage),
        0 <= k <= names.len(),
        recover_first(d, b, stage, names, mode, k).1 is Ok,
    ensures
        ({
            let e = recover_first(d, b, stage, names, mode, k).0;
            only_put_back(d, e, b.path) && rooted(e) && e.dom().finite()
        }),
    decreases k,
{
    if k > 0 {
        lemma_files_back(d, b, stage, names, mode, k - 1);
        let was = recover_first(d, b, stage, names, mode, k - 1).0;
        let name = names[k - 1];
        lemma_finite_has_order::<TreePath, NodeView>(d);
        lemma_names_in(d, stage);
        assert(names.contains(name));
        assert(d.contains_key(stage.push(name)));
        if was.contains_key(stage.push(name)) {
            assert(stage.push(name).len() == b.path.len() + 2);
            assert(d[stage.push(name)] == was[stage.push(name)]);
        }
        lemma_one_back(was, b, stage, name, mode);
        let now = recover_first(d, b, stage, names, mode, k).0;
        lemma_put_back_trans(d, was, now, b.path);
    }
}

/// Removing a directory in which files are set aside.
proof fn lemma_stage_removed(d: DiskView, p: PathView, s: Seq<char>)
    requires
        rooted(d),
        d.dom().finite(),
        internal(s),
        is_dir_at(d, p.push(s)),
    ensures
        ({
            let e = without_tree(d, p.push(s));
            only_put_back(d, e, p) && rooted(e) && e.dom().finite() && !e.contains_key(p.push(s))
        }),
{
    let stage = p.push(s);
    let e = without_tree(d, stage);
    law_changes_keep_the_tree_rooted(d, OpView::RemoveTree { path: stage, lenient: true });
    reveal_strlit(".dmm.json");
    reveal_strlit(".dmm.json.tmp");
    reveal_strlit(".dmm-clear");
    reveal_strlit(".dmm-reorder");
    reveal_strlit(".dmm-update-");
    let main = manifest_path(p);
    let temp = manifest_temp_path(p);
    assert(s != MANIFEST_FILENAME@ && s != MANIFEST_TEMP_FILENAME@) by {
        if starts_with(s, UPDATE_STAGING_PREFIX@) {
            assert(s.take(12)[4] == '-');
            assert(MANIFEST_FILENAME@[4] == '.');
            assert(MANIFEST_TEMP_FILENAME@[4] == '.');
        }
    }
    assert(stage.last() == s);
    assert(main.last() == MANIFEST_FILENAME@);
    assert(temp.last() == MANIFEST_TEMP_FILENAME@);
    assert(!stage.is_prefix_of(main)) by {
        if stage.is_prefix_of(main) {
            assert(stage =~= main);
        }
    }
    assert(!stage.is_prefix_of(temp)) by {
        if stage.is_prefix_of(temp) {
            assert(stage =~= temp);
        }
    }
    assert(stage =~= stage.take(stage.len() as int));
    assert(same_at(d, e, main));
    assert(same_at(d, e, temp));
}

/// Putting everything back that is set aside in a directory.
proof fn lemma_stage_back(d: DiskView, b: BaseView, s: Seq<char>, mode: RecoveryMode)
    requires
        rooted(d),
        d.dom().finite(),
        base_ok(b),
        internal(s),
        all_aside(d, b.path),
        recovered(d, b, b.path.push(s), mode).1 is Ok,
    ensures
        ({
            let e = recovered(d, b, b.path.push(s), mode).0;
            only_put_back(d, e, b.path) && rooted(e) && e.dom().finite() && !e.contains_key(
                b.path.push(s),
            )
        }),
{
    let stage = b.path.push(s);
    let names = names_in(d, stage);
    assert(is_dir_at(d, b.path.push(s)));
    lemma_files_back(d, b, stage, names, mode, names.len() as int);
    let d1 = recover_first(d, b, stage, names, mode, names.len() as int).0;
    lemma_stage_removed(d1, b.path, s);
    lemma_put_back_trans(d, d1, without_tree(d1, stage), b.path);
}

proof fn lemma_update_back(d: DiskView, b: BaseView, m: ManifestView, name: Seq<char>)
    requires
        rooted(d),
        d.dom().finite(),
        base_ok(b),
        all_aside(d, b.path),
        update_recovered(d, b, b.path, m, name).1 is Ok,
    ensures
        ({
            let e = update_recovered(d, b, b.path, m, name).0;
            &&& only_put_back(d, e, b.path)
            &&& rooted(e)
            &&& e.dom().finite()
            &&& starts_with(name, UPDATE_STAGING_PREFIX@) ==> !is_dir_at(e, b.path.push(name))
        }),
{
    if strip_prefix_spec(name, UPDATE_STAGING_PREFIX@) is Some && is_dir_at(d, b.path.push(name)) {
        assert(internal(name));
        if m.mods.contains_key(strip_prefix_spec(name, UPDATE_STAGING_PREFIX@)->0) {
            lemma_stage_back(d, b, name, RecoveryMode::Strict);
        } else {
            lemma_stage_removed(d, b.path, name);
        }
    }
}

proof fn lemma_updates_back(
    d: DiskView,
    b: BaseView,
    m: ManifestView,
    names: Seq<Seq<char>>,
    k: int,
)
    requires
        rooted(d),
        d.dom().finite(),
        base_ok(b),
        all_aside(d, b.path),
        0 <= k <= names.len(),
        updates_recovered(d, b, b.path, m, names, k).1 is Ok,
    ensures
        ({
            let e = updates_recovered(d, b, b.path, m, names, k).0;
            &&& only_put_back(d, e, b.path)
            &&& rooted(e)
            &&& e.dom().finite()
            &&& forall|i: int|
                0 <= i < k && starts_with(#[trigger] names[i], UPDATE_STAGING_PREFIX@)
                    ==> !is_dir_at(e, b.path.push(names[i]))
        }),
    decreases k,
{
    if k > 0 {
        lemma_updates_back(d, b, m, names, k - 1);
        let was = updates_recovered(d, b, b.path, m, names, k - 1).0;
        let now = updates_recovered(d, b, b.path, m, names, k).0;
        lemma_still_aside(d, was, b.path);
        lemma_update_back(was, b, m, names[k - 1]);
        lemma_put_back_trans(d, was, now, b.path);
        assert forall|i: int|
            0 <= i < k && starts_with(#[trigger] names[i], UPDATE_STAGING_PREFIX@) implies !is_dir_at(
            now,
            b.path.push(names[i]),
        ) by {
            if i < k - 1 && is_dir_at(now, b.path.push(names[i])) {
                assert(now.contains_key(b.path.push(names[i])));
                assert(is_dir_at(was, b.path.push(names[i])));
            }
        }
    }
}

/// What is left once everything is put back.
proof fn lemma_pending_back(d: DiskView, p: PathView, m: ManifestView)
    requires
        rooted(d),
        d.dom().finite(),
        all_aside(d, p),
        pending_recovered(d, p, m).1 is Ok,
    ensures
        ({
            let e = pending_recovered(d, p, m).0;
            only_put_back(d, e, p) && nothing_staged(e, p)
        }),
{
    let b = base_of(p, false)->0;
    lemma_base_ok(p, false);
    let clear = p.push(CLEAR_STAGING_DIR@);
    let order = p.push(REORDER_STAGING_DIR@);
    let d1 = clear_recovered(d, b, p, m).0;
    if is_dir_at(d, clear) {
        if m.mods == Map::<Seq<char>, crate::vpk_manifest::EntryView>::empty() {
            lemma_stage_removed(d, p, CLEAR_STAGING_DIR@);
        } else {
            lemma_stage_back(d, b, CLEAR_STAGING_DIR@, RecoveryMode::Strict);
        }
    }
    lemma_still_aside(d, d1, p);
    let d2 = reorder_recovered(d1, b, p).0;
    if is_dir_at(d1, order) {
        lemma_stage_back(d1, b, REORDER_STAGING_DIR@, RecoveryMode::AvoidEnabledCollisions);
    }
    lemma_still_aside(d1, d2, p);
    lemma_put_back_trans(d, d1, d2, p);
    assert(!is_dir_at(d2, clear)) by {
        if is_dir_at(d2, clear) {
            assert(d2.contains_key(clear));
            assert(is_dir_at(d1, clear));
        }
    }
    let e = pending_recovered(d, p, m).0;
    lemma_finite_has_order::<TreePath, NodeView>(d2);
    lemma_names_in(d2, p);
    if is_dir_at(d2, p) {
        let names = names_in(d2, p);
        lemma_updates_back(d2, b, m, names, names.len() as int);
        lemma_put_back_trans(d, d2, e, p);
        assert(!is_dir_at(e, clear)) by {
            if is_dir_at(e, clear) {
                assert(e.contains_key(clear));
                assert(is_dir_at(d2, clear));
            }
        }
        assert(!is_dir_at(e, order)) by {
            if is_dir_at(e, order) {
                assert(e.contains_key(order));
                assert(is_dir_at(d2, order));
            }
        }
        assert forall|name: Seq<char>|
            names_in(e, p).contains(name) && starts_with(name, UPDATE_STAGING_PREFIX@)
                implies !#[trigger] is_dir_at(e, p.push(name)) by {
            if is_dir_at(e, p.push(name)) {
                assert(e.contains_key(p.push(name)));
                assert(is_dir_at(d2, p.push(name)));
                assert(names.contains(name));
                let i = choose|i: int| 0 <= i < names.len() && names[i] == name;
                assert(!is_dir_at(e, b.path.push(names[i])));
            }
        }
    } else {
        assert forall|name: Seq<char>|
            names_in(e, p).contains(name) && starts_with(name, UPDATE_STAGING_PREFIX@)
                implies !#[trigger] is_dir_at(e, p.push(name)) by {
            if is_dir_at(e, p.push(name)) {
                lemma_rooted_at(e, p.push(name));
                assert(p.push(name).drop_last() =~= p);
                lemma_last_addons(p, p.len() as int);
                reveal_strlit("addons");
                assert(path_parent(p) is Some);
            }
        }
    }
}

/// Reading a manifest a second time gives what it gave the first time, and changes
/// nothing. What is set aside is to be files, of which none bears the name of the
/// manifest.
pub proof fn law_reading_twice_gives_the_same(d: DiskView, p: PathView)
    requires
        rooted(d),
        d.dom().finite(),
        all_aside(d, p),
        loaded(d, p).1 is Ok,
    ensures
        loaded(loaded(d, p).0, p) == loaded(d, p),
        nothing_staged(loaded(d, p).0, p),
        !exists_at(loaded(d, p).0, manifest_temp_path(p)),
{
    let d1 = temp_settled(d, p)->Ok_0;
    let m = manifest_at(d1, p)->Ok_0;
    let main = manifest_path(p);
    let temp = manifest_temp_path(p);
    lemma_manifest_names_differ();
    assert(main.last() == MANIFEST_FILENAME@);
    assert(temp.last() == MANIFEST_TEMP_FILENAME@);
    if !d.contains_key(main) && d.contains_key(temp) {
        assert(is_file_at(d, temp)) by {
            if is_dir_at(d, temp) {
                assert(main.is_prefix_of(main));
                assert(temp + main.skip(main.len() as int) =~= temp);
                assert(is_dir_at(d1, main));
            }
        }
        law_changes_keep_the_tree_rooted(d, OpView::Move(temp, main));
    } else if d.contains_key(main) && d.contains_key(temp) {
        law_changes_keep_the_tree_rooted(d, OpView::Delete(temp));
    }
    assert(!d1.contains_key(temp));
    assert(all_aside(d1, p)) by {
        assert forall|s: Seq<char>| #[trigger]
            is_dir_at(d1, p.push(s)) && internal(s) implies files_aside(d1, p.push(s)) by {
            assert(is_dir_at(d, p.push(s)));
            assert forall|name: Seq<char>| #[trigger]
                d1.contains_key(p.push(s).push(name)) implies is_file_at(d1, p.push(s).push(name))
                && goes_back_elsewhere(name) by {
                assert(d.contains_key(p.push(s).push(name)));
            }
        }
    }
    lemma_pending_back(d1, p, m);
    let e = loaded(d, p).0;
    assert(temp_settled(e, p) == Ok::<DiskView, ErrorView>(e));
    assert(manifest_at(e, p) == manifest_at(d1, p));
    if is_dir_at(e, p) {
        let names = names_in(e, p);
        lemma_no_updates(e, base_of(p, false)->0, p, m, names, names.len() as int);
    }
}

// ---------------------------------------------------------------------------
// Reading overwrites nothing
// ---------------------------------------------------------------------------

/// Not in a directory of the profile `p` in which files are set aside.
pub open spec fn outside_stages(p: PathView, q: PathView) -> bool {
    !(q.len() > p.len() && p.is_prefix_of(q) && internal(q[p.len() as int]))
}

/// Whatever stood outside the directories in which files are set aside stands as it was.
pub open spec fn kept(d: DiskView, e: DiskView, p: PathView) -> bool {
    &&& rooted(e)
    &&& e.dom().finite()
    &&& forall|q: PathView|
        d.contains_key(q) && outside_stages(p, q) ==> #[trigger] same_at(d, e, q)
}

proof fn lemma_kept_trans(a: DiskView, b: DiskView, c: DiskView, p: PathView)
    requires
        kept(a, b, p),
        kept(b, c, p),
    ensures
        kept(a, c, p),
{
    assert forall|q: PathView| a.contains_key(q) && outside_stages(p, q) implies #[trigger] same_at(
        a,
        c,
        q,
    ) by {
        assert(same_at(a, b, q));
        assert(same_at(b, c, q));
    }
}

pub proof fn lemma_stage_kept(d: DiskView, b: BaseView, p: PathView, s: Seq<char>, mode: RecoveryMode)
    requires
        rooted(d),
        d.dom().finite(),
        internal(s),
    ensures
        kept(d, recovered(d, b, p.push(s), mode).0, p),
        is_dir_at(d, p.push(s)) ==> kept(d, without_tree(d, p.push(s)), p),
{
    let stage = p.push(s);
    let names = names_in(d, stage);
    lemma_recovery_keeps(d, b, stage, names, mode, names.len() as int);
    law_recovery_overwrites_nothing(d, b, stage, mode);
    let d1 = recover_first(d, b, stage, names, mode, names.len() as int).0;
    if is_dir_at(d1, stage) {
        law_changes_keep_the_tree_rooted(d1, OpView::RemoveTree { path: stage, lenient: true });
    }
    if is_dir_at(d, stage) {
        law_changes_keep_the_tree_rooted(d, OpView::RemoveTree { path: stage, lenient: true });
    }
    assert forall|q: PathView| outside_stages(p, q) implies !#[trigger] stage.is_prefix_of(q) by {
        if stage.is_prefix_of(q) {
            assert(stage == q.take(stage.len() as int));
            assert(q.take(stage.len() as int)[p.len() as int] == q[p.len() as int]);
            assert(stage[p.len() as int] == s);
            assert(p =~= stage.take(p.len() as int));
            assert(p =~= q.take(p.len() as int));
        }
    }
    let e = recovered(d, b, stage, mode).0;
    assert forall|q: PathView| d.contains_key(q) && outside_stages(p, q) implies #[trigger] same_at(
        d,
        e,
        q,
    ) by {
        assert(!stage.is_prefix_of(q));
    }
    let f = without_tree(d, stage);
    assert forall|q: PathView| d.contains_key(q) && outside_stages(p, q) implies #[trigger] same_at(
        d,
        f,
        q,
    ) by {
        assert(!stage.is_prefix_of(q));
    }
}

proof fn lemma_updates_kept(
    d: DiskView,
    b: BaseView,
    p: PathView,
    m: ManifestView,
    names: Seq<Seq<char>>,
    k: int,
)
    requires
        rooted(d),
        d.dom().finite(),
        0 <= k <= names.len(),
    ensures
        kept(d, updates_recovered(d, b, p, m, names, k).0, p),
    decreases k,
{
    if k > 0 {
        lemma_updates_kept(d, b, p, m, names, k - 1);
        let (d1, r) = updates_recovered(d, b, p, m, names, k - 1);
        if r is Ok {
            let name = names[k - 1];
            let d2 = update_recovered(d1, b, p, m, name).0;
            if strip_prefix_spec(name, UPDATE_STAGING_PREFIX@) is Some {
                assert(internal(name));
                lemma_stage_kept(d1, b, p, name, RecoveryMode::Strict);
            }
            lemma_kept_trans(d, d1, d2, p);
        }
    }
}

proof fn lemma_pending_kept(d: DiskView, p: PathView, m: ManifestView)
    requires
        rooted(d),
        d.dom().finite(),
    ensures
        kept(d, pending_recovered(d, p, m).0, p),
{
    if base_of(p, false) is Some {
        let b = base_of(p, false)->0;
        lemma_stage_kept(d, b, p, CLEAR_STAGING_DIR@, RecoveryMode::Strict);
        let (d1, r1) = clear_recovered(d, b, p, m);
        assert(kept(d, d1, p));
        if r1 is Ok {
            lemma_stage_kept(
                d1,
                b,
                p,
                REORDER_STAGING_DIR@,
                RecoveryMode::AvoidEnabledCollisions,
            );
            let (d2, r2) = reorder_recovered(d1, b, p);
            assert(kept(d1, d2, p));
            lemma_kept_trans(d, d1, d2, p);
            if r2 is Ok && is_dir_at(d2, p) {
                let names = names_in(d2, p);
                lemma_updates_kept(d2, b, p, m, names, names.len() as int);
                lemma_kept_trans(
                    d,
                    d2,
                    updates_recovered(d2, b, p, m, names, names.len() as int).0,
                    p,
                );
            }
        }
    }
}

/// Neither the manifest nor what stands beside it is set aside.
pub proof fn lemma_manifest_outside(p: PathView)
    ensures
        outside_stages(p, manifest_path(p)),
        manifest_path(p) != manifest_temp_path(p),
        !manifest_temp_path(p).is_prefix_of(manifest_path(p)),
        path_parent(manifest_path(p)) is Some,
{
    reveal_strlit(".dmm.json");
    reveal_strlit(".dmm.json.tmp");
    reveal_strlit(".dmm-clear");
    reveal_strlit(".dmm-reorder");
    reveal_strlit(".dmm-update-");
    let s = MANIFEST_FILENAME@;
    let main = manifest_path(p);
    let temp = manifest_temp_path(p);
    assert(main[p.len() as int] == s);
    assert(s[4] == '.');
    assert(CLEAR_STAGING_DIR@[4] == '-');
    assert(REORDER_STAGING_DIR@[4] == '-');
    assert(UPDATE_STAGING_PREFIX@[4] == '-');
    if starts_with(s, UPDATE_STAGING_PREFIX@) {
        assert(s.take(12)[4] == s[4]);
    }
    lemma_manifest_names_differ();
    assert(main.last() == MANIFEST_FILENAME@);
    assert(main.last().len() > 0);
    assert(temp.last() == MANIFEST_TEMP_FILENAME@);
    if temp.is_prefix_of(main) {
        assert(temp =~= main);
    }
}

/// Reading a manifest, be it that it fails, leaves whatever stands in the tree as it is,
/// but for what is set aside and for what stands beside the manifest. A manifest that was
/// read is there.
pub proof fn law_reading_overwrites_nothing(d: DiskView, p: PathView)
    requires
        rooted(d),
        d.dom().finite(),
    ensures
        rooted(loaded(d, p).0),
        loaded(d, p).0.dom().finite(),
        forall|q: PathView|
            d.contains_key(q) && outside_stages(p, q) && !manifest_temp_path(p).is_prefix_of(q)
                ==> #[trigger] same_at(d, loaded(d, p).0, q),
        loaded(d, p).1 is Ok && (exists_at(d, manifest_path(p)) || exists_at(
            d,
            manifest_temp_path(p),
        )) ==> is_file_at(loaded(d, p).0, manifest_path(p)) && manifest_at(loaded(d, p).0, p)
            == loaded(d, p).1,
{
    let main = manifest_path(p);
    let temp = manifest_temp_path(p);
    let e = loaded(d, p).0;
    lemma_manifest_outside(p);
    if temp_settled(d, p) is Ok {
        let d1 = temp_settled(d, p)->Ok_0;
        if d.contains_key(main) && d.contains_key(temp) {
            law_changes_keep_the_tree_rooted(d, OpView::Delete(temp));
        } else if d.contains_key(temp) {
            law_changes_keep_the_tree_rooted(d, rename_op(d, temp, main));
        }
        assert forall|q: PathView| d.contains_key(q) && !temp.is_prefix_of(q) implies
            #[trigger] same_at(d, d1, q) by {
            assert(temp.is_prefix_of(temp)) by {
                assert(temp =~= temp.take(temp.len() as int));
            }
            if main.is_prefix_of(q) && !d.contains_key(main) {
                lemma_below_exists(d, main, q);
            }
            assert(main =~= main.take(main.len() as int));
        }
        if manifest_at(d1, p) is Ok {
            lemma_pending_kept(d1, p, manifest_at(d1, p)->Ok_0);
            assert forall|q: PathView|
                d.contains_key(q) && outside_stages(p, q) && !temp.is_prefix_of(
                    q,
                ) implies #[trigger] same_at(d, e, q) by {
                assert(same_at(d, d1, q));
                assert(same_at(d1, e, q));
            }
            if d.contains_key(main) || d.contains_key(temp) {
                assert(d1.contains_key(main)) by {
                    if !d.contains_key(main) {
                        assert(main =~= main.take(main.len() as int));
                        assert(temp + main.skip(main.len() as int) =~= temp);
                    }
                }
                assert(same_at(d1, e, main));
            }
        }
    }
}

/// Where there was a manifest to read, or none is there once it is read, reading again
/// gives the same if it succeeds.
pub proof fn law_reading_again_gives_the_same(d: DiskView, p: PathView)
    requires
        rooted(d),
        d.dom().finite(),
        manifest_stays(d, p),
        loaded(d, p).1 is Ok,
    ensures
        loaded(loaded(d, p).0, p).1 is Ok ==> loaded(loaded(d, p).0, p).1 == loaded(d, p).1,
{
    law_reading_overwrites_nothing(d, p);
}

/// There is a manifest to read, or none is there once it is read.
pub open spec fn manifest_stays(d: DiskView, p: PathView) -> bool {
    let e = loaded(d, p).0;
    exists_at(d, manifest_path(p)) || exists_at(d, manifest_temp_path(p)) || (!exists_at(
        e,
        manifest_path(p),
    ) && !exists_at(e, manifest_temp_path(p)))
}

} // verus!
