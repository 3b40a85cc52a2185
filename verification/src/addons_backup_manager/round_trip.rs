//! What a backup holds, and what restoring it brings back.
use super::{
    backup_dir_of, backup_made, backup_restored, build_path, build_place, citadel_of,
    roots_copied, roots_moved, safe_backup_name, RestoreStrategy, LAST_ATTEMPT,
};
use crate::backup_name::BACKUP_PREFIX;
use crate::disk::{
    apply, can_rename, exists_at, folder, is_below, is_dir_at, law_changes_keep_the_tree_rooted,
    lemma_below_exists, lemma_prefix_trans, lemma_push_prefix, lemma_rooted_at, lemma_with_dirs,
    moved_tree, parent_ready, rename_op, renamed, rooted, same_at, with_dirs, without_tree,
    DiskView, OpView,
};
use crate::error::ErrorView;
use crate::manager::addons_root;
use crate::manifest_store::{law_checking_a_tidy_tree_changes_nothing, tidy};
use crate::path::{lemma_join_plain, path_parent, plain_name, PathView};
use crate::shard::{law_root_names_differ, root_of, valid_shard, MAX_SHARDS};
use crate::text::{dec, lemma_dec, occurs_at};
use crate::tree_copy::{root_path, tree_copied};
use crate::tree_copy::faithful::{
    apart, dirs_unlinked, law_copies_hold_what_is_shown, law_tidy_trees_are_copied_whole,
    lemma_below_parts, lemma_below_split, lemma_copy_is_plain, lemma_copy_is_tidy,
    lemma_one_dir, lemma_prefixes_meet, lemma_shown_by_tree, tree_at, tree_shown,
};
use vstd::prelude::*;

verus! {

/// `q` is one of the roots of shards 1 to `n` in `dir`, or stands below one.
pub open spec fn in_roots(dir: PathView, n: nat, q: PathView) -> bool {
    exists|m: nat| 1 <= m <= n && (#[trigger] root_path(dir, m)).is_prefix_of(q)
}

/// What stands at `dst` in `e` is a copy of what is shown at `src` in `d`, and is
/// missing if that is.
pub open spec fn holds_copy(d: DiskView, src: PathView, e: DiskView, dst: PathView) -> bool {
    &&& exists_at(e, dst) == exists_at(d, src)
    &&& exists_at(d, src) ==> is_dir_at(e, dst)
    &&& tree_at(e, dst) == tree_shown(d, src)
}

proof fn lemma_apart_at(a: PathView, b: PathView, i: int)
    requires
        0 <= i < a.len(),
        i < b.len(),
        a[i] != b[i],
    ensures
        apart(a, b),
{
    if a.is_prefix_of(b) {
        assert(a == b.take(a.len() as int));
        assert(b.take(a.len() as int)[i] == b[i]);
    }
    if b.is_prefix_of(a) {
        assert(b == a.take(b.len() as int));
        assert(a.take(b.len() as int)[i] == a[i]);
    }
}

proof fn lemma_siblings_apart(dir: PathView, m: nat, k: nat)
    requires
        valid_shard(m),
        valid_shard(k),
        m != k,
    ensures
        apart(root_path(dir, m), root_path(dir, k)),
{
    if root_of(m) == root_of(k) {
        law_root_names_differ(m, k);
    }
    lemma_apart_at(root_path(dir, m), root_path(dir, k), dir.len() as int);
}

/// Nothing else in a `citadel` is named like a shard root.
proof fn lemma_other_names(m: nat)
    requires
        valid_shard(m),
    ensures
        root_of(m) != "addons-backups"@,
        root_of(m) != ".dmm-restore-staging"@,
        root_of(m).len() > 0,
        root_of(1) == "addons"@,
{
    reveal_strlit("addons");
    reveal_strlit("addons-backups");
    reveal_strlit(".dmm-restore-staging");
    let r = root_of(m);
    assert("addons"@.len() == 6);
    assert("addons-backups"@.len() == 14);
    assert("addons-backups"@[6] == '-');
    assert(r[0] == 'a');
    assert(".dmm-restore-staging"@[0] == '.');
    if m > 1 {
        lemma_dec(m);
        assert(r[6] == dec(m)[0]);
    }
}

proof fn lemma_same_tree(d: DiskView, e: DiskView, root: PathView)
    requires
        forall|q: PathView| #[trigger] root.is_prefix_of(q) ==> same_at(d, e, q),
    ensures
        tree_at(d, root) == tree_at(e, root),
        tree_shown(d, root) == tree_shown(e, root),
        same_at(d, e, root),
{
    let a = tree_at(d, root);
    let b = tree_at(e, root);
    assert forall|r: PathView|
        (#[trigger] a.contains_key(r) <==> b.contains_key(r)) && (a.contains_key(r) ==> a[r]
            == b[r]) by {
        lemma_below_parts(root, r);
    }
    assert(a =~= b);
    lemma_shown_by_tree(d, root, e, root);
    assert(root =~= root.take(root.len() as int));
    assert(root.is_prefix_of(root));
}

/// Below nothing there is nothing.
proof fn lemma_nothing_there(d: DiskView, root: PathView)
    requires
        rooted(d),
        path_parent(root) is Some,
        !is_dir_at(d, root),
    ensures
        tree_at(d, root) == Map::<PathView, crate::disk::NodeView>::empty(),
        tree_shown(d, root) == Map::<PathView, crate::disk::NodeView>::empty(),
        dirs_unlinked(d, root),
{
    assert forall|q: PathView| is_below(root, q) implies !#[trigger] d.contains_key(q) by {
        if d.contains_key(q) {
            lemma_below_exists(d, root, q);
        }
    }
    let a = tree_at(d, root);
    assert forall|r: PathView| !#[trigger] a.contains_key(r) by {
        lemma_below_parts(root, r);
    }
    assert(a =~= Map::empty());
    let b = tree_shown(d, root);
    assert forall|r: PathView| !#[trigger] b.contains_key(r) by {
        let s = r.drop_last().push(crate::vpk_manifest::MANIFEST_TEMP_FILENAME@);
        lemma_below_parts(root, r);
        lemma_below_parts(root, s);
    }
    assert(b =~= Map::empty());
}

proof fn lemma_root_parent(dir: PathView, n: nat)
    requires
        valid_shard(n),
    ensures
        path_parent(root_path(dir, n)) == Some(dir),
        dir.is_prefix_of(root_path(dir, n)),
        !root_path(dir, n).is_prefix_of(dir),
{
    lemma_other_names(n);
    lemma_push_prefix(dir, root_of(n));
    assert(root_path(dir, n).drop_last() =~= dir);
}

// ---------------------------------------------------------------------------
// Copying and moving the shard roots
// ---------------------------------------------------------------------------

spec fn roots_apart(from: PathView, to: PathView, n: nat) -> bool {
    forall|m: nat, k: nat|
        1 <= m <= n && 1 <= k <= n ==> apart(
            #[trigger] root_path(from, m),
            #[trigger] root_path(to, k),
        )
}

/// What became of the root of shard `m`.
spec fn root_copied(d: DiskView, e: DiskView, from: PathView, to: PathView, m: nat) -> bool {
    if exists_at(d, root_path(from, m)) {
        is_dir_at(e, root_path(to, m)) && tree_at(e, root_path(to, m)) == tree_at(
            d,
            root_path(to, m),
        ).union_prefer_right(tree_shown(d, root_path(from, m)))
    } else {
        tree_at(e, root_path(to, m)) == tree_at(d, root_path(to, m)) && same_at(
            d,
            e,
            root_path(to, m),
        )
    }
}

proof fn lemma_roots_copied(d: DiskView, from: PathView, to: PathView, n: nat, e: DiskView)
    requires
        rooted(d),
        d.dom().finite(),
        n <= MAX_SHARDS,
        is_dir_at(d, to),
        roots_apart(from, to, n),
        forall|m: nat| 1 <= m <= n ==> dirs_unlinked(d, #[trigger] root_path(to, m)),
        roots_copied(d, from, to, n) == Ok::<DiskView, (PathView, ErrorView)>(e),
    ensures
        rooted(e),
        e.dom().finite(),
        forall|q: PathView| !in_roots(to, n, q) ==> #[trigger] same_at(d, e, q),
        forall|m: nat| 1 <= m <= n ==> #[trigger] root_copied(d, e, from, to, m),
    decreases n,
{
    if n > 0 {
        let k = (n - 1) as nat;
        let d1 = roots_copied(d, from, to, k)->Ok_0;
        lemma_roots_copied(d, from, to, k, d1);
        let src = root_path(from, n);
        let dst = root_path(to, n);
        lemma_root_parent(to, n);
        assert(apart(src, dst));
        assert forall|q: PathView| #[trigger] src.is_prefix_of(q) implies same_at(d, d1, q) by {
            if in_roots(to, k, q) {
                let m = choose|m: nat|
                    1 <= m <= k && (#[trigger] root_path(to, m)).is_prefix_of(q);
                assert(apart(src, root_path(to, m)));
                lemma_prefixes_meet(src, root_path(to, m), q);
            }
        }
        assert forall|q: PathView| #[trigger] dst.is_prefix_of(q) implies same_at(d, d1, q) by {
            if in_roots(to, k, q) {
                let m = choose|m: nat|
                    1 <= m <= k && (#[trigger] root_path(to, m)).is_prefix_of(q);
                lemma_siblings_apart(to, n, m);
                lemma_prefixes_meet(dst, root_path(to, m), q);
            }
        }
        lemma_same_tree(d, d1, src);
        lemma_same_tree(d, d1, dst);
        assert(same_at(d, d1, to)) by {
            if in_roots(to, k, to) {
                let m = choose|m: nat|
                    1 <= m <= k && (#[trigger] root_path(to, m)).is_prefix_of(to);
                lemma_root_parent(to, m);
            }
        }
        if exists_at(d1, src) {
            assert(tree_copied(d1, src, dst) == Ok::<DiskView, ErrorView>(e));
            assert(dirs_unlinked(d1, dst)) by {
                assert forall|q: PathView| is_below(dst, q) && #[trigger] is_dir_at(
                    d1,
                    q,
                ) implies !d1[q].linked by {
                    assert(same_at(d, d1, q));
                    assert(is_dir_at(d, q));
                    assert(dirs_unlinked(d, root_path(to, n)));
                }
            }
            law_copies_hold_what_is_shown(d1, src, dst, e);
            assert(dst.drop_last() =~= to);
            lemma_one_dir(d1, dst);
            assert forall|q: PathView| !dst.is_prefix_of(q) implies #[trigger] same_at(d1, e, q) by {
                assert(dst =~= dst.take(dst.len() as int));
                assert(q != dst);
                assert(e.contains_key(q) <==> with_dirs(d1, dst).contains_key(q));
            }
        }
        assert forall|q: PathView| !in_roots(to, n, q) implies #[trigger] same_at(d, e, q) by {
            if in_roots(to, k, q) {
                let m = choose|m: nat|
                    1 <= m <= k && (#[trigger] root_path(to, m)).is_prefix_of(q);
                assert(1 <= m <= n);
            }
            assert(!dst.is_prefix_of(q));
            assert(same_at(d, d1, q));
            if exists_at(d1, src) {
                assert(same_at(d1, e, q));
            }
        }
        assert forall|m: nat| 1 <= m <= n implies #[trigger] root_copied(d, e, from, to, m) by {
            if m < n {
                assert(root_copied(d, d1, from, to, m));
                if exists_at(d1, src) {
                    let other = root_path(to, m);
                    assert forall|q: PathView| #[trigger] other.is_prefix_of(q) implies same_at(
                        d1,
                        e,
                        q,
                    ) by {
                        lemma_siblings_apart(to, n, m);
                        if dst.is_prefix_of(q) {
                            lemma_prefixes_meet(dst, other, q);
                        }
                    }
                    lemma_same_tree(d1, e, other);
                }
            }
        }
    }
}

/// What became of the root of shard `m`.
spec fn root_moved(d: DiskView, e: DiskView, from: PathView, to: PathView, m: nat) -> bool {
    &&& !exists_at(e, root_path(from, m))
    &&& exists_at(d, root_path(from, m)) ==> exists_at(e, root_path(to, m)) && tree_at(
        e,
        root_path(to, m),
    ) == tree_at(d, root_path(from, m))
    &&& !exists_at(d, root_path(from, m)) ==> tree_at(e, root_path(to, m)) == tree_at(
        d,
        root_path(to, m),
    ) && same_at(d, e, root_path(to, m))
}

proof fn lemma_one_moved(d: DiskView, a: PathView, b: PathView)
    requires
        rooted(d),
        d.dom().finite(),
        exists_at(d, a),
        can_rename(d, a, b),
        apart(a, b),
        path_parent(b) is Some,
    ensures
        rooted(renamed(d, a, b)),
        renamed(d, a, b).dom().finite(),
        exists_at(renamed(d, a, b), b),
        !exists_at(renamed(d, a, b), a),
        renamed(d, a, b)[b] == d[a],
        tree_at(renamed(d, a, b), b) == tree_at(d, a),
        forall|q: PathView|
            !a.is_prefix_of(q) && !b.is_prefix_of(q) ==> #[trigger] same_at(
                d,
                renamed(d, a, b),
                q,
            ),
{
    let e = renamed(d, a, b);
    lemma_rooted_at(d, a);
    law_changes_keep_the_tree_rooted(d, rename_op(d, a, b));
    assert(a =~= a.take(a.len() as int));
    assert(b =~= b.take(b.len() as int));
    if is_dir_at(d, a) {
        assert(b.skip(b.len() as int) =~= Seq::<Seq<char>>::empty());
        assert(a + Seq::<Seq<char>>::empty() =~= a);
        let x = tree_at(e, b);
        let y = tree_at(d, a);
        assert forall|r: PathView|
            (#[trigger] x.contains_key(r) <==> y.contains_key(r)) && (x.contains_key(r) ==> x[r]
                == y[r]) by {
            lemma_below_parts(b, r);
        }
        assert(x =~= y);
    } else {
        lemma_nothing_there(d, a);
        lemma_nothing_there(e, b);
    }
}

proof fn lemma_roots_moved(d: DiskView, from: PathView, to: PathView, n: nat, e: DiskView)
    requires
        rooted(d),
        d.dom().finite(),
        n <= MAX_SHARDS,
        roots_apart(from, to, n),
        roots_moved(d, from, to, n) == Ok::<DiskView, PathView>(e),
    ensures
        rooted(e),
        e.dom().finite(),
        forall|q: PathView|
            !in_roots(from, n, q) && !in_roots(to, n, q) ==> #[trigger] same_at(d, e, q),
        forall|m: nat| 1 <= m <= n ==> #[trigger] root_moved(d, e, from, to, m),
    decreases n,
{
    if n > 0 {
        let k = (n - 1) as nat;
        let d1 = roots_moved(d, from, to, k)->Ok_0;
        lemma_roots_moved(d, from, to, k, d1);
        let a = root_path(from, n);
        let b = root_path(to, n);
        assert(apart(a, b));
        lemma_root_parent(to, n);
        assert forall|q: PathView|
            #![trigger a.is_prefix_of(q)]
            #![trigger b.is_prefix_of(q)]
            a.is_prefix_of(q) || b.is_prefix_of(q) implies same_at(d, d1, q) by {
            let c = if a.is_prefix_of(q) {
                a
            } else {
                b
            };
            if in_roots(from, k, q) {
                let m = choose|m: nat|
                    1 <= m <= k && (#[trigger] root_path(from, m)).is_prefix_of(q);
                lemma_siblings_apart(from, n, m);
                assert(apart(root_path(from, m), b));
                lemma_prefixes_meet(c, root_path(from, m), q);
            }
            if in_roots(to, k, q) {
                let m = choose|m: nat|
                    1 <= m <= k && (#[trigger] root_path(to, m)).is_prefix_of(q);
                lemma_siblings_apart(to, n, m);
                assert(apart(a, root_path(to, m)));
                lemma_prefixes_meet(c, root_path(to, m), q);
            }
        }
        lemma_same_tree(d, d1, a);
        lemma_same_tree(d, d1, b);
        if exists_at(d1, a) {
            lemma_one_moved(d1, a, b);
        }
        assert forall|q: PathView| !in_roots(from, n, q) && !in_roots(to, n, q) implies
            #[trigger] same_at(d, e, q) by {
            if in_roots(from, k, q) {
                let m = choose|m: nat|
                    1 <= m <= k && (#[trigger] root_path(from, m)).is_prefix_of(q);
                assert(1 <= m <= n);
            }
            if in_roots(to, k, q) {
                let m = choose|m: nat|
                    1 <= m <= k && (#[trigger] root_path(to, m)).is_prefix_of(q);
                assert(1 <= m <= n);
            }
            assert(!a.is_prefix_of(q));
            assert(!b.is_prefix_of(q));
            assert(same_at(d, d1, q));
            if exists_at(d1, a) {
                assert(same_at(d1, e, q));
            }
        }
        assert forall|m: nat| 1 <= m <= n implies #[trigger] root_moved(d, e, from, to, m) by {
            if m < n {
                assert(root_moved(d, d1, from, to, m));
                if exists_at(d1, a) {
                    lemma_siblings_apart(from, n, m);
                    lemma_siblings_apart(to, n, m);
                    let x = root_path(from, m);
                    let y = root_path(to, m);
                    assert(apart(x, b));
                    assert(apart(a, y));
                    assert forall|q: PathView| #[trigger] y.is_prefix_of(q) implies same_at(
                        d1,
                        e,
                        q,
                    ) by {
                        if a.is_prefix_of(q) {
                            lemma_prefixes_meet(a, y, q);
                        }
                        if b.is_prefix_of(q) {
                            lemma_prefixes_meet(b, y, q);
                        }
                    }
                    lemma_same_tree(d1, e, y);
                    assert(same_at(d1, e, x));
                }
            }
        }
    }
}

// ---------------------------------------------------------------------------
// Making a backup
// ---------------------------------------------------------------------------

proof fn lemma_safe_name(name: Seq<char>)
    requires
        safe_backup_name(name),
    ensures
        plain_name(name),
        name[0] == 'a',
        !name.contains('/'),
{
    reveal_strlit("addons-backup-");
    reveal_strlit("/");
    reveal_strlit(".");
    reveal_strlit("..");
    let prefix = BACKUP_PREFIX@;
    assert(prefix.len() == 14);
    assert(name.take(14)[0] == prefix[0]);
    assert(prefix[0] == 'a');
    if name.contains('/') {
        let i = choose|i: int| 0 <= i < name.len() && name[i] == '/';
        assert(name.subrange(i, i + 1) =~= "/"@);
        assert(occurs_at(name, "/"@, i));
    }
}

/// The place a backup is built in.
pub proof fn lemma_build_place(d: DiskView, dir: PathView, name: Seq<char>, k: nat)
    requires
        safe_backup_name(name),
        build_place(d, dir, name, k) is Ok,
    ensures
        ({
            let stage = build_place(d, dir, name, k)->Ok_0;
            &&& !exists_at(d, stage)
            &&& parent_ready(d, stage)
            &&& stage == dir.push(stage.last())
            &&& stage.last() != name
            &&& stage.last().len() > 0
            &&& stage.last()[0] == '.'
        }),
    decreases LAST_ATTEMPT + 1 - k,
{
    if exists_at(d, build_path(dir, name, k)) {
        lemma_build_place(d, dir, name, k + 1);
    } else {
        let x = "."@ + name + ".staging-"@ + dec(k);
        reveal_strlit(".");
        reveal_strlit("..");
        reveal_strlit(".staging-");
        assert("."@.len() == 1);
        assert(".staging-"@.len() == 9);
        assert(!".staging-"@.contains('/'));
        lemma_safe_name(name);
        lemma_dec(k);
        assert(x[0] == '.');
        assert(x.len() > 10);
        if x.contains('/') {
            let i = choose|i: int| 0 <= i < x.len() && x[i] == '/';
            let n = name.len() as int;
            if 1 <= i < n + 1 {
                assert(x[i] == name[i - 1]);
            } else if n + 1 <= i < n + 10 {
                assert(x[i] == ".staging-"@[i - n - 1]);
            } else if i >= n + 10 {
                assert(x[i] == dec(k)[i - n - 10]);
            }
        }
        lemma_join_plain(dir, x);
    }
}

/// The root of a shard that was copied to where nothing stood.
proof fn lemma_copied_fresh(d: DiskView, e: DiskView, from: PathView, to: PathView, m: nat)
    requires
        rooted(d),
        valid_shard(m),
        root_copied(d, e, from, to, m),
        !exists_at(d, root_path(to, m)),
    ensures
        holds_copy(d, root_path(from, m), e, root_path(to, m)),
        tidy(e, root_path(to, m)),
{
    lemma_root_parent(to, m);
    lemma_root_parent(from, m);
    lemma_nothing_there(d, root_path(to, m));
    if exists_at(d, root_path(from, m)) {
        assert(tree_at(e, root_path(to, m)) =~= tree_shown(d, root_path(from, m)));
    } else {
        lemma_nothing_there(d, root_path(from, m));
    }
    lemma_copy_is_tidy(d, root_path(from, m), e, root_path(to, m));
}

/// The roots in a `citadel` and those anywhere below another name in it.
proof fn lemma_roots_apart(citadel: PathView, other: Seq<char>, dir: PathView, n: nat)
    requires
        n <= MAX_SHARDS,
        other == "addons-backups"@ || other == ".dmm-restore-staging"@,
        citadel.push(other).is_prefix_of(dir),
    ensures
        roots_apart(citadel, dir, n),
        roots_apart(dir, citadel, n),
        forall|m: nat| 1 <= m <= n ==> apart(#[trigger] root_path(citadel, m), dir),
{
    let at = citadel.len() as int;
    assert(dir[at] == other) by {
        assert(citadel.push(other)[at] == other);
        assert(citadel.push(other) == dir.take(at + 1));
        assert(dir.take(at + 1)[at] == dir[at]);
    }
    assert forall|m: nat| 1 <= m <= n implies apart(#[trigger] root_path(citadel, m), dir) by {
        lemma_other_names(m);
        lemma_apart_at(root_path(citadel, m), dir, at);
    }
    assert forall|m: nat, k: nat| 1 <= m <= n && 1 <= k <= n implies apart(
        #[trigger] root_path(citadel, m),
        #[trigger] root_path(dir, k),
    ) by {
        lemma_other_names(m);
        lemma_apart_at(root_path(citadel, m), root_path(dir, k), at);
    }
}

/// A backup holds a copy of each shard root, and of nothing else. Making it leaves
/// everything that was there as it was.
pub proof fn law_a_backup_holds_the_addons(
    d: DiskView,
    game: PathView,
    name: Seq<char>,
    e: DiskView,
)
    requires
        rooted(d),
        d.dom().finite(),
        safe_backup_name(name),
        backup_made(d, addons_root(game), backup_dir_of(game), name) == (
            e,
            Ok::<(), ErrorView>(()),
        ),
    ensures
        rooted(e),
        e.dom().finite(),
        is_dir_at(e, backup_dir_of(game).push(name)),
        forall|n: nat|
            valid_shard(n) ==> holds_copy(
                d,
                root_path(citadel_of(game), n),
                e,
                #[trigger] root_path(backup_dir_of(game).push(name), n),
            ),
        forall|q: PathView|
            #[trigger] e.contains_key(q) && backup_dir_of(game).push(name).is_prefix_of(q) && q
                != backup_dir_of(game).push(name) ==> in_roots(
                backup_dir_of(game).push(name),
                MAX_SHARDS as nat,
                q,
            ),
        forall|q: PathView|
            #[trigger] d.contains_key(q) ==> e.contains_key(q) && e[q] == d[q],
        forall|q: PathView|
            #[trigger] e.contains_key(q) ==> d.contains_key(q) || q.is_prefix_of(
                backup_dir_of(game),
            ) || backup_dir_of(game).push(name).is_prefix_of(q),
{
    let all = MAX_SHARDS as nat;
    let addons = addons_root(game);
    let citadel = citadel_of(game);
    let dir = backup_dir_of(game);
    let target = dir.push(name);
    lemma_safe_name(name);
    lemma_join_plain(dir, name);
    assert(addons.drop_last() =~= citadel);
    assert(path_parent(addons) == Some(citadel));
    let d1 = with_dirs(d, dir);
    lemma_with_dirs(d, dir);
    lemma_build_place(d1, dir, name, 0);
    let stage = build_place(d1, dir, name, 0)->Ok_0;
    let d2 = d1.insert(stage, folder());
    assert(d2 == apply(d1, OpView::MakeDir(stage)));
    law_changes_keep_the_tree_rooted(d1, OpView::MakeDir(stage));
    let d3 = roots_copied(d2, citadel, stage, all)->Ok_0;
    lemma_push_prefix(dir, stage.last());
    lemma_push_prefix(dir, name);
    lemma_push_prefix(citadel, "addons-backups"@);
    lemma_roots_apart(citadel, "addons-backups"@, stage, all);
    lemma_roots_apart(citadel, "addons-backups"@, dir, all);
    assert(path_parent(stage) is Some && path_parent(target) is Some) by {
        assert(dir.len() > 1);
    }
    lemma_apart_at(stage, target, dir.len() as int);
    // Nothing stands in the new directory.
    assert forall|q: PathView| is_below(stage, q) implies !#[trigger] d2.contains_key(q) by {
        if d1.contains_key(q) {
            lemma_below_exists(d1, stage, q);
        }
    }
    assert forall|m: nat| 1 <= m <= all implies dirs_unlinked(
        d2,
        #[trigger] root_path(stage, m),
    ) && !exists_at(d2, root_path(stage, m)) by {
        lemma_root_parent(stage, m);
        assert(is_below(stage, root_path(stage, m)));
        lemma_nothing_there(d2, root_path(stage, m));
    }
    lemma_roots_copied(d2, citadel, stage, all, d3);
    // The check changes nothing.
    lemma_other_names(1);
    assert(root_path(stage, 1) == stage.push("addons"@));
    assert(root_copied(d2, d3, citadel, stage, 1));
    lemma_copied_fresh(d2, d3, citadel, stage, 1);
    law_checking_a_tidy_tree_changes_nothing(d3, stage);
    // The backup gets its name.
    assert(same_at(d2, d3, stage)) by {
        if in_roots(stage, all, stage) {
            let m = choose|m: nat|
                1 <= m <= all && (#[trigger] root_path(stage, m)).is_prefix_of(stage);
            lemma_root_parent(stage, m);
        }
    }
    assert(e == renamed(d3, stage, target));
    lemma_one_moved(d3, stage, target);
    assert forall|n: nat| valid_shard(n) implies holds_copy(
        d,
        root_path(citadel, n),
        e,
        #[trigger] root_path(target, n),
    ) by {
        let src = root_path(citadel, n);
        assert(root_copied(d2, d3, citadel, stage, n));
        lemma_copied_fresh(d2, d3, citadel, stage, n);
        assert(apart(src, dir));
        assert forall|q: PathView| #[trigger] src.is_prefix_of(q) implies same_at(d, d2, q) by {
            if q.is_prefix_of(dir) {
                lemma_prefix_trans(src, q, dir);
            }
            if q == stage {
                lemma_prefixes_meet(src, dir, stage);
            }
        }
        lemma_same_tree(d, d2, src);
        lemma_moved_below(d3, stage, target, root_of(n));
    }
    assert forall|q: PathView|
        #[trigger] e.contains_key(q) && target.is_prefix_of(q) && q != target implies in_roots(
        target,
        all,
        q,
    ) by {
        let r = q.skip(target.len() as int);
        lemma_below_split(target, q);
        let p = stage + r;
        if r.len() == 0 {
            assert(target + r =~= target);
        }
        lemma_below_parts(stage, r);
        assert(tree_at(e, target).contains_key(r));
        assert(tree_at(d3, stage).contains_key(r));
        assert(d3.contains_key(p));
        assert(!d2.contains_key(p));
        if !in_roots(stage, all, p) {
            assert(same_at(d2, d3, p));
        }
        let m = choose|m: nat| 1 <= m <= all && (#[trigger] root_path(stage, m)).is_prefix_of(p);
        let root = root_path(stage, m);
        assert(root == p.take(stage.len() as int + 1));
        assert(root_path(target, m) =~= q.take(target.len() as int + 1)) by {
            assert(root[stage.len() as int] == r[0]);
        }
    }
    assert forall|q: PathView| #[trigger] d.contains_key(q) implies e.contains_key(q) && e[q]
        == d[q] by {
        assert(d1.contains_key(q));
        if stage.is_prefix_of(q) {
            lemma_below_exists(d1, stage, q);
        }
        if target.is_prefix_of(q) {
            lemma_below_exists(d1, target, q);
        }
        assert(same_at(d3, e, q));
        assert(!in_roots(stage, all, q)) by {
            lemma_outside(stage, all, q);
        }
        assert(same_at(d2, d3, q));
    }
    assert forall|q: PathView| #[trigger] e.contains_key(q) implies d.contains_key(q)
        || q.is_prefix_of(dir) || target.is_prefix_of(q) by {
        if !target.is_prefix_of(q) {
            if stage.is_prefix_of(q) {
                assert(is_dir_at(d3, stage));
                assert(!moved_tree(d3, stage, target).contains_key(q));
            }
            assert(same_at(d3, e, q));
            lemma_outside(stage, all, q);
            assert(same_at(d2, d3, q));
            assert(stage =~= stage.take(stage.len() as int));
        }
    }
}

/// What is not below a directory is in none of its roots.
proof fn lemma_outside(dir: PathView, n: nat, q: PathView)
    requires
        n <= MAX_SHARDS,
        !dir.is_prefix_of(q),
    ensures
        !in_roots(dir, n, q),
{
    if in_roots(dir, n, q) {
        let m = choose|m: nat| 1 <= m <= n && (#[trigger] root_path(dir, m)).is_prefix_of(q);
        lemma_root_parent(dir, m);
        lemma_prefix_trans(dir, root_path(dir, m), q);
    }
}

/// What stood below a directory that was renamed stands below its new name.
proof fn lemma_moved_below(d: DiskView, a: PathView, b: PathView, name: Seq<char>)
    requires
        is_dir_at(d, a),
        can_rename(d, a, b),
    ensures
        exists_at(renamed(d, a, b), b.push(name)) == exists_at(d, a.push(name)),
        is_dir_at(renamed(d, a, b), b.push(name)) == is_dir_at(d, a.push(name)),
        tree_at(renamed(d, a, b), b.push(name)) == tree_at(d, a.push(name)),
{
    let e = renamed(d, a, b);
    lemma_push_prefix(b, name);
    assert(b.push(name).skip(b.len() as int) =~= seq![name]);
    assert(a + seq![name] =~= a.push(name));
    let x = tree_at(e, b.push(name));
    let y = tree_at(d, a.push(name));
    assert forall|r: PathView|
        (#[trigger] x.contains_key(r) <==> y.contains_key(r)) && (x.contains_key(r) ==> x[r]
            == y[r]) by {
        let q = b.push(name) + r;
        assert(q =~= b + (seq![name] + r));
        lemma_below_parts(b, seq![name] + r);
        assert(a + (seq![name] + r) =~= a.push(name) + r);
    }
    assert(x =~= y);
}

// ---------------------------------------------------------------------------
// Restoring a backup
// ---------------------------------------------------------------------------

/// The staging directory is in none of the shard roots, nor in its own.
proof fn lemma_stage_outside(citadel: PathView)
    ensures
        !in_roots(citadel, MAX_SHARDS as nat, citadel.push(".dmm-restore-staging"@)),
        !in_roots(
            citadel.push(".dmm-restore-staging"@),
            MAX_SHARDS as nat,
            citadel.push(".dmm-restore-staging"@),
        ),
{
    let all = MAX_SHARDS as nat;
    let stage = citadel.push(".dmm-restore-staging"@);
    if in_roots(citadel, all, stage) {
        let m = choose|m: nat| 1 <= m <= all && (#[trigger] root_path(citadel, m)).is_prefix_of(
            stage,
        );
        lemma_root_not_staged(citadel, m, stage);
        assert(stage =~= stage.take(stage.len() as int));
    }
    if in_roots(stage, all, stage) {
        let m = choose|m: nat| 1 <= m <= all && (#[trigger] root_path(stage, m)).is_prefix_of(
            stage,
        );
        lemma_root_parent(stage, m);
    }
}

/// The tree once the present addons are set aside.
proof fn lemma_set_aside(d: DiskView, game: PathView, name: Seq<char>, e: DiskView)
    requires
        rooted(d),
        d.dom().finite(),
        exists_at(d, backup_dir_of(game).push(name)),
        !exists_at(d, citadel_of(game).push(".dmm-restore-staging"@)),
        roots_moved(
            with_dirs(d, citadel_of(game).push(".dmm-restore-staging"@)),
            citadel_of(game),
            citadel_of(game).push(".dmm-restore-staging"@),
            MAX_SHARDS as nat,
        ) == Ok::<DiskView, PathView>(e),
    ensures
        rooted(e),
        e.dom().finite(),
        is_dir_at(e, citadel_of(game)),
        is_dir_at(e, citadel_of(game).push(".dmm-restore-staging"@)),
        forall|q: PathView|
            !in_roots(citadel_of(game), MAX_SHARDS as nat, q) && !citadel_of(game).push(
                ".dmm-restore-staging"@,
            ).is_prefix_of(q) ==> #[trigger] same_at(d, e, q),
        forall|m: nat|
            valid_shard(m) ==> !exists_at(e, #[trigger] root_path(citadel_of(game), m))
                && tree_shown(
                e,
                root_path(citadel_of(game).push(".dmm-restore-staging"@), m),
            ) == tree_shown(d, root_path(citadel_of(game), m)) && exists_at(
                e,
                root_path(citadel_of(game).push(".dmm-restore-staging"@), m),
            ) == exists_at(d, root_path(citadel_of(game), m)),
{
    let all = MAX_SHARDS as nat;
    let citadel = citadel_of(game);
    let stage = citadel.push(".dmm-restore-staging"@);
    let backup = backup_dir_of(game).push(name);
    let d1 = with_dirs(d, stage);
    assert(citadel =~= backup.take(citadel.len() as int));
    assert(path_parent(citadel) is Some);
    lemma_below_exists(d, citadel, backup);
    assert(stage.drop_last() =~= citadel);
    lemma_one_dir(d, stage);
    law_changes_keep_the_tree_rooted(d, OpView::MakeDir(stage));
    lemma_push_prefix(stage, Seq::empty());
    lemma_roots_apart(citadel, ".dmm-restore-staging"@, stage, all);
    lemma_roots_moved(d1, citadel, stage, all, e);
    assert forall|q: PathView| !in_roots(citadel, all, q) && !stage.is_prefix_of(q) implies
        #[trigger] same_at(d, e, q) by {
        lemma_outside(stage, all, q);
        assert(same_at(d1, e, q));
        assert(q != stage);
    }
    lemma_stage_outside(citadel);
    assert(same_at(d1, e, stage));
    assert(same_at(d, e, citadel)) by {
        lemma_push_prefix(citadel, ".dmm-restore-staging"@);
        if in_roots(citadel, all, citadel) {
            let m = choose|m: nat|
                1 <= m <= all && (#[trigger] root_path(citadel, m)).is_prefix_of(citadel);
            lemma_root_parent(citadel, m);
        }
    }
    assert forall|m: nat| valid_shard(m) implies !exists_at(
        e,
        #[trigger] root_path(citadel, m),
    ) && tree_shown(e, root_path(stage, m)) == tree_shown(d, root_path(citadel, m)) && exists_at(
        e,
        root_path(stage, m),
    ) == exists_at(d, root_path(citadel, m)) by {
        let a = root_path(citadel, m);
        let b = root_path(stage, m);
        assert(root_moved(d1, e, citadel, stage, m));
        assert(apart(a, stage));
        assert forall|q: PathView| #[trigger] a.is_prefix_of(q) implies same_at(d, d1, q) by {
            assert(q != stage);
        }
        lemma_same_tree(d, d1, a);
        if exists_at(d, a) {
            lemma_shown_by_tree(e, b, d1, a);
        } else {
            lemma_root_parent(stage, m);
            lemma_root_parent(citadel, m);
            if d1.contains_key(b) {
                assert(d.contains_key(b));
                lemma_below_exists(d, stage, b);
            }
            lemma_nothing_there(e, b);
            lemma_nothing_there(d, a);
        }
    }
}

/// Restoring a backup in place of the addons leaves a copy of each shard root of
/// the backup, and no other shard root. Everything else is as it was.
pub proof fn law_restoring_replaces_the_addons(
    d: DiskView,
    game: PathView,
    name: Seq<char>,
    e: DiskView,
)
    requires
        rooted(d),
        d.dom().finite(),
        is_dir_at(d, backup_dir_of(game).push(name).push("addons"@)),
        backup_restored(d, Some(game), name, RestoreStrategy::Replace) == Ok::<DiskView, ErrorView>(
            e,
        ),
    ensures
        forall|n: nat|
            valid_shard(n) ==> holds_copy(
                d,
                root_path(backup_dir_of(game).push(name), n),
                e,
                #[trigger] root_path(citadel_of(game), n),
            ),
        forall|q: PathView|
            !in_roots(citadel_of(game), MAX_SHARDS as nat, q) ==> #[trigger] same_at(d, e, q),
{
    let all = MAX_SHARDS as nat;
    let citadel = citadel_of(game);
    let stage = citadel.push(".dmm-restore-staging"@);
    let backup = backup_dir_of(game).push(name);
    let d1 = roots_moved(with_dirs(d, stage), citadel, stage, all)->Ok_0;
    lemma_set_aside(d, game, name, d1);
    assert(citadel.push("addons-backups"@) =~= backup.take(citadel.len() as int + 1));
    lemma_roots_apart(citadel, "addons-backups"@, backup, all);
    lemma_other_names(1);
    lemma_stage_and_backup(citadel, name);
    // The backup is as it was.
    assert forall|q: PathView| #[trigger] backup.is_prefix_of(q) implies same_at(d, d1, q) by {
        lemma_kept(citadel, stage, backup, q);
    }
    assert forall|m: nat| 1 <= m <= all implies dirs_unlinked(
        d1,
        #[trigger] root_path(citadel, m),
    ) by {
        lemma_root_parent(citadel, m);
        lemma_nothing_there(d1, root_path(citadel, m));
    }
    lemma_push_prefix(backup, "addons"@);
    assert(same_at(d, d1, backup.push("addons"@)));
    let d2 = roots_copied(d1, backup, citadel, all)->Ok_0;
    lemma_roots_copied(d1, backup, citadel, all, d2);
    assert(root_copied(d1, d2, backup, citadel, 1));
    lemma_copied_fresh(d1, d2, backup, citadel, 1);
    law_checking_a_tidy_tree_changes_nothing(d2, citadel);
    assert(e == (if is_dir_at(d2, stage) {
        without_tree(d2, stage)
    } else {
        d2
    }));
    lemma_cleared(citadel, d2, e);
    lemma_stage_outside(citadel);
    assert(same_at(d1, d2, stage));
    assert forall|n: nat| valid_shard(n) implies holds_copy(
        d,
        root_path(backup, n),
        e,
        #[trigger] root_path(citadel, n),
    ) by {
        let src = root_path(backup, n);
        let dst = root_path(citadel, n);
        assert(root_copied(d1, d2, backup, citadel, n));
        lemma_copied_fresh(d1, d2, backup, citadel, n);
        lemma_root_parent(backup, n);
        assert forall|q: PathView| #[trigger] src.is_prefix_of(q) implies same_at(d, d1, q) by {
            lemma_prefix_trans(backup, src, q);
        }
        lemma_same_tree(d, d1, src);
        assert forall|q: PathView| #[trigger] dst.is_prefix_of(q) implies same_at(d2, e, q) by {
            lemma_root_not_staged(citadel, n, q);
        }
        lemma_same_tree(d2, e, dst);
    }
    assert forall|q: PathView| !in_roots(citadel, all, q) implies #[trigger] same_at(d, e, q) by {
        if stage.is_prefix_of(q) {
            lemma_stage_gone(d, d2, e, citadel, q);
        } else {
            assert(same_at(d, d1, q));
            assert(same_at(d1, d2, q));
            assert(same_at(d2, e, q));
        }
    }
}

proof fn lemma_stage_and_backup(citadel: PathView, name: Seq<char>)
    ensures
        apart(
            citadel.push(".dmm-restore-staging"@),
            citadel.push("addons-backups"@).push(name),
        ),
{
    reveal_strlit(".dmm-restore-staging");
    reveal_strlit("addons-backups");
    assert(".dmm-restore-staging"@[0] == '.');
    assert("addons-backups"@[0] == 'a');
    lemma_apart_at(
        citadel.push(".dmm-restore-staging"@),
        citadel.push("addons-backups"@).push(name),
        citadel.len() as int,
    );
}

/// What is at or below a backup is not set aside.
proof fn lemma_kept(citadel: PathView, stage: PathView, backup: PathView, q: PathView)
    requires
        forall|m: nat|
            1 <= m <= MAX_SHARDS ==> apart(#[trigger] root_path(citadel, m), backup),
        apart(stage, backup),
        backup.is_prefix_of(q),
    ensures
        !in_roots(citadel, MAX_SHARDS as nat, q),
        !stage.is_prefix_of(q),
{
    if in_roots(citadel, MAX_SHARDS as nat, q) {
        let m = choose|m: nat|
            1 <= m <= MAX_SHARDS && (#[trigger] root_path(citadel, m)).is_prefix_of(q);
        lemma_prefixes_meet(root_path(citadel, m), backup, q);
    }
    if stage.is_prefix_of(q) {
        lemma_prefixes_meet(stage, backup, q);
    }
}

/// What is at or below a shard root is not below the staging directory.
proof fn lemma_root_not_staged(citadel: PathView, n: nat, q: PathView)
    requires
        valid_shard(n),
        root_path(citadel, n).is_prefix_of(q),
    ensures
        !citadel.push(".dmm-restore-staging"@).is_prefix_of(q),
{
    let stage = citadel.push(".dmm-restore-staging"@);
    if stage.is_prefix_of(q) {
        lemma_other_names(n);
        assert(root_path(citadel, n)[citadel.len() as int] == root_of(n));
        assert(stage[citadel.len() as int] == ".dmm-restore-staging"@);
        lemma_apart_at(root_path(citadel, n), stage, citadel.len() as int);
        lemma_prefixes_meet(root_path(citadel, n), stage, q);
    }
}

/// Clearing the staging directory away touches nothing else.
proof fn lemma_cleared(citadel: PathView, d2: DiskView, e: DiskView)
    requires
        e == (if is_dir_at(d2, citadel.push(".dmm-restore-staging"@)) {
            without_tree(d2, citadel.push(".dmm-restore-staging"@))
        } else {
            d2
        }),
    ensures
        forall|q: PathView|
            !citadel.push(".dmm-restore-staging"@).is_prefix_of(q) ==> #[trigger] same_at(
                d2,
                e,
                q,
            ),
{
}

/// Nothing is left of the staging directory.
proof fn lemma_stage_gone(d: DiskView, d2: DiskView, e: DiskView, citadel: PathView, q: PathView)
    requires
        rooted(d),
        rooted(d2),
        !exists_at(d, citadel.push(".dmm-restore-staging"@)),
        citadel.len() > 1,
        is_dir_at(d2, citadel.push(".dmm-restore-staging"@)),
        e == without_tree(d2, citadel.push(".dmm-restore-staging"@)),
        citadel.push(".dmm-restore-staging"@).is_prefix_of(q),
    ensures
        same_at(d, e, q),
{
    let stage = citadel.push(".dmm-restore-staging"@);
    if d.contains_key(q) {
        lemma_below_exists(d, stage, q);
    }
}

/// Restoring a backup over the addons leaves in each shard root what was shown of
/// it with what is shown of the backup laid over it. Everything else is as it was.
pub proof fn law_restoring_merges_the_addons(
    d: DiskView,
    game: PathView,
    name: Seq<char>,
    e: DiskView,
)
    requires
        rooted(d),
        d.dom().finite(),
        is_dir_at(d, backup_dir_of(game).push(name).push("addons"@)),
        backup_restored(d, Some(game), name, RestoreStrategy::Merge) == Ok::<DiskView, ErrorView>(
            e,
        ),
    ensures
        forall|n: nat|
            valid_shard(n) ==> tree_at(e, #[trigger] root_path(citadel_of(game), n)) == tree_shown(
                d,
                root_path(citadel_of(game), n),
            ).union_prefer_right(tree_shown(d, root_path(backup_dir_of(game).push(name), n)))
                && exists_at(e, root_path(citadel_of(game), n)) == (exists_at(
                d,
                root_path(citadel_of(game), n),
            ) || exists_at(d, root_path(backup_dir_of(game).push(name), n))),
        forall|q: PathView|
            !in_roots(citadel_of(game), MAX_SHARDS as nat, q) ==> #[trigger] same_at(d, e, q),
{
    let all = MAX_SHARDS as nat;
    let citadel = citadel_of(game);
    let stage = citadel.push(".dmm-restore-staging"@);
    let backup = backup_dir_of(game).push(name);
    let d1 = roots_moved(with_dirs(d, stage), citadel, stage, all)->Ok_0;
    lemma_set_aside(d, game, name, d1);
    assert(citadel.push("addons-backups"@) =~= backup.take(citadel.len() as int + 1));
    lemma_roots_apart(citadel, "addons-backups"@, backup, all);
    lemma_push_prefix(stage, Seq::empty());
    lemma_roots_apart(citadel, ".dmm-restore-staging"@, stage, all);
    lemma_other_names(1);
    lemma_stage_and_backup(citadel, name);
    lemma_stage_outside(citadel);
    assert forall|q: PathView| #[trigger] backup.is_prefix_of(q) implies same_at(d, d1, q)
        && !in_roots(citadel, all, q) by {
        lemma_kept(citadel, stage, backup, q);
    }
    assert forall|m: nat| 1 <= m <= all implies dirs_unlinked(
        d1,
        #[trigger] root_path(citadel, m),
    ) by {
        lemma_root_parent(citadel, m);
        lemma_nothing_there(d1, root_path(citadel, m));
    }
    // The present addons go back.
    let d2 = roots_copied(d1, stage, citadel, all)->Ok_0;
    lemma_roots_copied(d1, stage, citadel, all, d2);
    assert forall|m: nat| 1 <= m <= all implies dirs_unlinked(
        d2,
        #[trigger] root_path(citadel, m),
    ) && holds_copy(d1, root_path(stage, m), d2, root_path(citadel, m)) by {
        assert(root_copied(d1, d2, stage, citadel, m));
        lemma_copied_fresh(d1, d2, stage, citadel, m);
        lemma_copy_is_tidy(d1, root_path(stage, m), d2, root_path(citadel, m));
    }
    assert(same_at(d1, d2, citadel)) by {
        if in_roots(citadel, all, citadel) {
            let m = choose|m: nat|
                1 <= m <= all && (#[trigger] root_path(citadel, m)).is_prefix_of(citadel);
            lemma_root_parent(citadel, m);
        }
    }
    // The backup goes over them.
    lemma_push_prefix(backup, "addons"@);
    assert(same_at(d, d1, backup.push("addons"@)));
    assert(same_at(d1, d2, backup.push("addons"@)));
    let d3 = roots_copied(d2, backup, citadel, all)->Ok_0;
    lemma_roots_copied(d2, backup, citadel, all, d3);
    assert forall|n: nat| valid_shard(n) implies tree_at(d3, #[trigger] root_path(citadel, n))
        == tree_shown(d, root_path(citadel, n)).union_prefer_right(
        tree_shown(d, root_path(backup, n)),
    ) && exists_at(d3, root_path(citadel, n)) == (exists_at(d, root_path(citadel, n)) || exists_at(
        d,
        root_path(backup, n),
    )) by {
        let src = root_path(backup, n);
        let dst = root_path(citadel, n);
        assert(root_copied(d2, d3, backup, citadel, n));
        lemma_root_parent(backup, n);
        assert forall|q: PathView| #[trigger] src.is_prefix_of(q) implies same_at(d, d2, q) by {
            lemma_prefix_trans(backup, src, q);
            assert(same_at(d, d1, q));
            assert(same_at(d1, d2, q));
        }
        lemma_same_tree(d, d2, src);
        assert(holds_copy(d1, root_path(stage, n), d2, dst));
        if !exists_at(d, src) {
            lemma_nothing_there(d, src);
            assert(tree_at(d3, dst) =~= tree_at(d2, dst).union_prefer_right(tree_shown(d, src)));
        }
    }
    assert(tidy(d3, root_path(citadel, 1))) by {
        let dst = root_path(citadel, 1);
        let src = root_path(backup, 1);
        assert forall|q: PathView| is_below(dst, q) && #[trigger] d3.contains_key(
            q,
        ) implies !crate::shard::internal_artifact(q.last()) by {
            lemma_below_split(dst, q);
            let r = q.skip(dst.len() as int);
            assert(tree_at(d3, dst).contains_key(r));
            if tree_shown(d, src).contains_key(r) {
                lemma_copy_is_plain(d, src, r);
            } else {
                lemma_copy_is_plain(d, dst, r);
            }
            assert(r.last() == q.last());
        }
    }
    law_checking_a_tidy_tree_changes_nothing(d3, citadel);
    lemma_cleared(citadel, d3, e);
    assert(same_at(d1, d2, stage));
    assert(same_at(d2, d3, stage));
    assert forall|n: nat| valid_shard(n) implies tree_at(e, #[trigger] root_path(citadel, n))
        == tree_at(d3, root_path(citadel, n)) && exists_at(e, root_path(citadel, n)) == exists_at(
        d3,
        root_path(citadel, n),
    ) by {
        let dst = root_path(citadel, n);
        assert forall|q: PathView| #[trigger] dst.is_prefix_of(q) implies same_at(d3, e, q) by {
            lemma_root_not_staged(citadel, n, q);
        }
        lemma_same_tree(d3, e, dst);
    }
    assert forall|q: PathView| !in_roots(citadel, all, q) implies #[trigger] same_at(d, e, q) by {
        if stage.is_prefix_of(q) {
            lemma_stage_gone(d, d3, e, citadel, q);
        } else {
            assert(same_at(d, d1, q));
            assert(same_at(d1, d2, q));
            assert(same_at(d2, d3, q));
            assert(same_at(d3, e, q));
        }
    }
}

/// A backup from before the addons had shards is restored as a whole: the first
/// shard root is a copy of it, and there is no other.
pub proof fn law_restoring_an_older_backup(
    d: DiskView,
    game: PathView,
    name: Seq<char>,
    e: DiskView,
)
    requires
        rooted(d),
        d.dom().finite(),
        !is_dir_at(d, backup_dir_of(game).push(name).push("addons"@)),
        backup_restored(d, Some(game), name, RestoreStrategy::Replace) == Ok::<DiskView, ErrorView>(
            e,
        ),
    ensures
        holds_copy(d, backup_dir_of(game).push(name), e, root_path(citadel_of(game), 1)),
        forall|n: nat|
            valid_shard(n) && n > 1 ==> !exists_at(e, #[trigger] root_path(citadel_of(game), n)),
        forall|q: PathView|
            !in_roots(citadel_of(game), MAX_SHARDS as nat, q) ==> #[trigger] same_at(d, e, q),
{
    let all = MAX_SHARDS as nat;
    let citadel = citadel_of(game);
    let stage = citadel.push(".dmm-restore-staging"@);
    let backup = backup_dir_of(game).push(name);
    let dst = root_path(citadel, 1);
    let d1 = roots_moved(with_dirs(d, stage), citadel, stage, all)->Ok_0;
    lemma_set_aside(d, game, name, d1);
    assert(citadel.push("addons-backups"@) =~= backup.take(citadel.len() as int + 1));
    lemma_roots_apart(citadel, "addons-backups"@, backup, all);
    lemma_other_names(1);
    lemma_stage_and_backup(citadel, name);
    lemma_stage_outside(citadel);
    assert forall|q: PathView| #[trigger] backup.is_prefix_of(q) implies same_at(d, d1, q) by {
        lemma_kept(citadel, stage, backup, q);
    }
    lemma_same_tree(d, d1, backup);
    lemma_push_prefix(backup, "addons"@);
    assert(same_at(d, d1, backup.push("addons"@)));
    assert(dst == citadel.push("addons"@));
    let d2 = tree_copied(d1, backup, dst)->Ok_0;
    lemma_root_parent(citadel, 1);
    lemma_nothing_there(d1, dst);
    assert(apart(dst, backup));
    law_copies_hold_what_is_shown(d1, backup, dst, d2);
    assert(tree_at(d2, dst) =~= tree_shown(d, backup));
    assert(dst.drop_last() =~= citadel);
    lemma_one_dir(d1, dst);
    lemma_copy_is_tidy(d, backup, d2, dst);
    law_checking_a_tidy_tree_changes_nothing(d2, citadel);
    lemma_cleared(citadel, d2, e);
    assert(dst =~= dst.take(dst.len() as int));
    assert forall|q: PathView| !dst.is_prefix_of(q) implies #[trigger] same_at(d1, d2, q) by {
        assert(d2.contains_key(q) <==> with_dirs(d1, dst).contains_key(q));
    }
    assert(!dst.is_prefix_of(stage)) by {
        if dst.is_prefix_of(stage) {
            lemma_root_not_staged(citadel, 1, stage);
            assert(stage =~= stage.take(stage.len() as int));
        }
    }
    assert(same_at(d1, d2, stage));
    assert forall|q: PathView| #[trigger] dst.is_prefix_of(q) implies same_at(d2, e, q) by {
        lemma_root_not_staged(citadel, 1, q);
    }
    lemma_same_tree(d2, e, dst);
    assert forall|n: nat| valid_shard(n) && n > 1 implies !exists_at(
        e,
        #[trigger] root_path(citadel, n),
    ) by {
        let other = root_path(citadel, n);
        lemma_siblings_apart(citadel, 1, n);
        assert(same_at(d1, d2, other));
        assert(other =~= other.take(other.len() as int));
        lemma_root_not_staged(citadel, n, other);
        assert(same_at(d2, e, other));
    }
    assert forall|q: PathView| !in_roots(citadel, all, q) implies #[trigger] same_at(d, e, q) by {
        if stage.is_prefix_of(q) {
            lemma_stage_gone(d, d2, e, citadel, q);
        } else {
            assert(same_at(d, d1, q));
            assert(1 <= 1nat <= all);
            assert(!dst.is_prefix_of(q));
            assert(same_at(d1, d2, q));
            assert(same_at(d2, e, q));
        }
    }
}

/// Restoring a backup from before the addons had shards over the addons leaves in the
/// first shard root what was shown of it with what is shown of the backup laid over it.
/// The other shard roots keep what was shown of them.
pub proof fn law_merging_an_older_backup(d: DiskView, game: PathView, name: Seq<char>, e: DiskView)
    requires
        rooted(d),
        d.dom().finite(),
        !is_dir_at(d, backup_dir_of(game).push(name).push("addons"@)),
        backup_restored(d, Some(game), name, RestoreStrategy::Merge) == Ok::<DiskView, ErrorView>(
            e,
        ),
    ensures
        is_dir_at(e, root_path(citadel_of(game), 1)),
        tree_at(e, root_path(citadel_of(game), 1)) == tree_shown(
            d,
            root_path(citadel_of(game), 1),
        ).union_prefer_right(tree_shown(d, backup_dir_of(game).push(name))),
        forall|n: nat|
            valid_shard(n) && n > 1 ==> holds_copy(
                d,
                root_path(citadel_of(game), n),
                e,
                #[trigger] root_path(citadel_of(game), n),
            ),
        forall|q: PathView|
            !in_roots(citadel_of(game), MAX_SHARDS as nat, q) ==> #[trigger] same_at(d, e, q),
{
    let all = MAX_SHARDS as nat;
    let citadel = citadel_of(game);
    let stage = citadel.push(".dmm-restore-staging"@);
    let backup = backup_dir_of(game).push(name);
    let dst = root_path(citadel, 1);
    let d1 = roots_moved(with_dirs(d, stage), citadel, stage, all)->Ok_0;
    lemma_set_aside(d, game, name, d1);
    assert(citadel.push("addons-backups"@) =~= backup.take(citadel.len() as int + 1));
    lemma_roots_apart(citadel, "addons-backups"@, backup, all);
    lemma_push_prefix(stage, Seq::empty());
    lemma_roots_apart(citadel, ".dmm-restore-staging"@, stage, all);
    lemma_other_names(1);
    lemma_stage_and_backup(citadel, name);
    lemma_stage_outside(citadel);
    assert forall|q: PathView| #[trigger] backup.is_prefix_of(q) implies same_at(d, d1, q)
        && !in_roots(citadel, all, q) by {
        lemma_kept(citadel, stage, backup, q);
    }
    assert forall|m: nat| 1 <= m <= all implies dirs_unlinked(
        d1,
        #[trigger] root_path(citadel, m),
    ) by {
        lemma_root_parent(citadel, m);
        lemma_nothing_there(d1, root_path(citadel, m));
    }
    // The present addons go back.
    let d2 = roots_copied(d1, stage, citadel, all)->Ok_0;
    lemma_roots_copied(d1, stage, citadel, all, d2);
    assert forall|m: nat| 1 <= m <= all implies dirs_unlinked(
        d2,
        #[trigger] root_path(citadel, m),
    ) && holds_copy(d1, root_path(stage, m), d2, root_path(citadel, m)) by {
        assert(root_copied(d1, d2, stage, citadel, m));
        lemma_copied_fresh(d1, d2, stage, citadel, m);
        lemma_copy_is_tidy(d1, root_path(stage, m), d2, root_path(citadel, m));
    }
    assert(same_at(d1, d2, citadel)) by {
        if in_roots(citadel, all, citadel) {
            let m = choose|m: nat|
                1 <= m <= all && (#[trigger] root_path(citadel, m)).is_prefix_of(citadel);
            lemma_root_parent(citadel, m);
        }
    }
    // The backup goes over the first of them.
    lemma_push_prefix(backup, "addons"@);
    assert(same_at(d, d1, backup.push("addons"@)));
    assert(same_at(d1, d2, backup.push("addons"@)));
    assert forall|q: PathView| #[trigger] backup.is_prefix_of(q) implies same_at(d, d2, q) by {
        assert(same_at(d, d1, q));
        assert(same_at(d1, d2, q));
    }
    lemma_same_tree(d, d2, backup);
    assert(dst == citadel.push("addons"@));
    let d3 = tree_copied(d2, backup, dst)->Ok_0;
    lemma_root_parent(citadel, 1);
    assert(apart(dst, backup));
    assert(holds_copy(d1, root_path(stage, 1), d2, dst));
    law_copies_hold_what_is_shown(d2, backup, dst, d3);
    assert(dst.drop_last() =~= citadel);
    lemma_one_dir(d2, dst);
    assert(tidy(d3, dst)) by {
        assert forall|q: PathView| is_below(dst, q) && #[trigger] d3.contains_key(
            q,
        ) implies !crate::shard::internal_artifact(q.last()) by {
            lemma_below_split(dst, q);
            let r = q.skip(dst.len() as int);
            assert(tree_at(d3, dst).contains_key(r));
            if tree_shown(d, backup).contains_key(r) {
                lemma_copy_is_plain(d, backup, r);
            } else {
                lemma_copy_is_plain(d, dst, r);
            }
            assert(r.last() == q.last());
        }
    }
    law_checking_a_tidy_tree_changes_nothing(d3, citadel);
    lemma_cleared(citadel, d3, e);
    assert(dst =~= dst.take(dst.len() as int));
    assert forall|q: PathView| !dst.is_prefix_of(q) implies #[trigger] same_at(d2, d3, q) by {
        assert(d3.contains_key(q) <==> with_dirs(d2, dst).contains_key(q));
    }
    assert(!dst.is_prefix_of(stage)) by {
        if dst.is_prefix_of(stage) {
            lemma_root_not_staged(citadel, 1, stage);
            assert(stage =~= stage.take(stage.len() as int));
        }
    }
    assert(same_at(d1, d2, stage));
    assert(same_at(d2, d3, stage));
    assert forall|q: PathView| #[trigger] dst.is_prefix_of(q) implies same_at(d3, e, q) by {
        lemma_root_not_staged(citadel, 1, q);
    }
    lemma_same_tree(d3, e, dst);
    assert(same_at(d3, e, dst));
    assert forall|n: nat| valid_shard(n) && n > 1 implies holds_copy(
        d,
        root_path(citadel, n),
        e,
        #[trigger] root_path(citadel, n),
    ) by {
        let other = root_path(citadel, n);
        lemma_siblings_apart(citadel, 1, n);
        assert(holds_copy(d1, root_path(stage, n), d2, other));
        assert forall|q: PathView| #[trigger] other.is_prefix_of(q) implies same_at(d2, e, q) by {
            lemma_root_not_staged(citadel, n, q);
            if dst.is_prefix_of(q) {
                lemma_prefixes_meet(dst, other, q);
            }
            assert(same_at(d2, d3, q));
            assert(same_at(d3, e, q));
        }
        lemma_same_tree(d2, e, other);
        assert(other =~= other.take(other.len() as int));
        assert(same_at(d2, e, other));
    }
    assert forall|q: PathView| !in_roots(citadel, all, q) implies #[trigger] same_at(d, e, q) by {
        if stage.is_prefix_of(q) {
            lemma_stage_gone(d, d3, e, citadel, q);
        } else {
            assert(same_at(d, d1, q));
            assert(same_at(d1, d2, q));
            assert(1 <= 1nat <= all);
            assert(!dst.is_prefix_of(q));
            assert(same_at(d2, d3, q));
            assert(same_at(d3, e, q));
        }
    }
}

/// Restoring a backup brings back the addons as they were when it was made,
/// whatever became of them in between: every shard root holds what was shown of it
/// then, and a shard root that was missing is missing again.
pub proof fn law_a_backup_restores_the_addons(
    d: DiskView,
    game: PathView,
    name: Seq<char>,
    made: DiskView,
    later: DiskView,
    restored: DiskView,
)
    requires
        rooted(d),
        d.dom().finite(),
        safe_backup_name(name),
        backup_made(d, addons_root(game), backup_dir_of(game), name) == (
            made,
            Ok::<(), ErrorView>(()),
        ),
        rooted(later),
        later.dom().finite(),
        forall|q: PathView|
            #[trigger] backup_dir_of(game).push(name).is_prefix_of(q) ==> same_at(made, later, q),
        backup_restored(later, Some(game), name, RestoreStrategy::Replace) == Ok::<
            DiskView,
            ErrorView,
        >(restored),
    ensures
        forall|n: nat|
            valid_shard(n) ==> holds_copy(
                d,
                root_path(citadel_of(game), n),
                restored,
                #[trigger] root_path(citadel_of(game), n),
            ),
{
    let citadel = citadel_of(game);
    let backup = backup_dir_of(game).push(name);
    law_a_backup_holds_the_addons(d, game, name, made);
    assert forall|n: nat| valid_shard(n) implies tree_shown(later, #[trigger] root_path(backup, n))
        == tree_shown(d, root_path(citadel, n)) && same_at(made, later, root_path(backup, n)) by {
        let root = root_path(backup, n);
        lemma_root_parent(backup, n);
        assert forall|q: PathView| #[trigger] root.is_prefix_of(q) implies same_at(
            made,
            later,
            q,
        ) by {
            lemma_prefix_trans(backup, root, q);
        }
        lemma_same_tree(made, later, root);
        assert(holds_copy(d, root_path(citadel, n), made, root));
        lemma_copy_is_tidy(d, root_path(citadel, n), made, root);
        law_tidy_trees_are_copied_whole(made, root);
    }
    lemma_other_names(1);
    assert(root_path(backup, 1) == backup.push("addons"@));
    assert(root_path(citadel, 1) == addons_root(game));
    assert(holds_copy(d, root_path(citadel, 1), made, root_path(backup, 1)));
    law_restoring_replaces_the_addons(later, game, name, restored);
    assert forall|n: nat| valid_shard(n) implies holds_copy(
        d,
        root_path(citadel, n),
        restored,
        #[trigger] root_path(citadel, n),
    ) by {
        assert(tree_shown(later, root_path(backup, n)) == tree_shown(d, root_path(citadel, n)));
        assert(holds_copy(d, root_path(citadel, n), made, root_path(backup, n)));
    }
}

} // verus!
