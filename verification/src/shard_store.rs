//! The shard directories of a profile on the disk.
use crate::text;
use crate::disk::{
    cannot_text, exists_at, is_dir_at, legal, moved_tree, parent_ready, rooted, same_at,
    without_tree, Disk, DiskView, Op, OpView,
};
use crate::error::{Error, ErrorView};
use crate::journal::{
    lemma_moves_done, lemma_only_moved, lemma_only_moved_same, lemma_removals_done,
    lemma_removed, lemma_unchanged_removed, moved_then_removed, only_moved, partly_removed,
};
use crate::path::{path_parent, PathView, TreePath};
use crate::shard::{
    bad_base_text, base_of, base_ok, root_of, shard_dir_of, valid_shard, BaseView, ProfileBase,
    ShardIndex, DELETE_STAGING_PREFIX, MAX_SHARDS,
};
use crate::text::dec;
use crate::vpk_manifest::path_views;
use vstd::prelude::*;
use vstd::string::*;

verus! {

/// Those of shards 1 to `n` whose directory is there.
pub open spec fn existing_to(d: DiskView, b: BaseView, n: nat) -> Seq<nat>
    decreases n,
{
    if n == 0 {
        Seq::empty()
    } else if exists_at(d, shard_dir_of(b, n)) {
        existing_to(d, b, (n - 1) as nat).push(n)
    } else {
        existing_to(d, b, (n - 1) as nat)
    }
}

/// The shards whose directory is there, ascending.
pub open spec fn existing_of(d: DiskView, b: BaseView) -> Seq<nat> {
    existing_to(d, b, MAX_SHARDS as nat)
}

pub open spec fn shard_dirs(b: BaseView, shards: Seq<nat>) -> Seq<PathView> {
    shards.map_values(|n: nat| shard_dir_of(b, n))
}

pub proof fn lemma_existing(d: DiskView, b: BaseView, n: nat)
    requires
        n <= MAX_SHARDS,
    ensures
        forall|i: int|
            0 <= i < existing_to(d, b, n).len() ==> 1 <= (#[trigger] existing_to(d, b, n)[i]) <= n
                && exists_at(d, shard_dir_of(b, existing_to(d, b, n)[i])),
        forall|i: int, j: int|
            0 <= i < j < existing_to(d, b, n).len() ==> (#[trigger] existing_to(d, b, n)[i])
                < #[trigger] existing_to(d, b, n)[j],
        forall|m: nat|
            1 <= m <= n && exists_at(d, shard_dir_of(b, m)) ==> #[trigger] existing_to(
                d,
                b,
                n,
            ).contains(m),
    decreases n,
{
    if n > 0 {
        lemma_existing(d, b, (n - 1) as nat);
        let s = existing_to(d, b, (n - 1) as nat);
        let t = existing_to(d, b, n);
        assert forall|m: nat| 1 <= m <= n && exists_at(d, shard_dir_of(b, m)) implies #[trigger] t.contains(
        m) by {
            if m == n {
                assert(t[t.len() - 1] == n);
            } else {
                assert(s.contains(m));
                let i = choose|i: int| 0 <= i < s.len() && s[i] == m;
                assert(t[i] == m);
            }
        }
    }
}

impl ProfileBase {
    /// The shards whose directory is there, ascending, with their directories.
    pub fn existing_shards(&self, disk: &Disk) -> (r: Vec<(ShardIndex, TreePath)>)
        ensures
            r@.len() == existing_of(disk@, self@).len(),
            forall|i: int|
                0 <= i < r@.len() ==> (#[trigger] r@[i]).0.number() == existing_of(disk@, self@)[i]
                    && r@[i].1@ == shard_dir_of(self@, existing_of(disk@, self@)[i]),
            base_ok(self@),
    {
        let all = self.shards();
        let mut r: Vec<(ShardIndex, TreePath)> = Vec::new();
        let mut i: usize = 0;
        while i < all.len()
            invariant
                i <= all@.len() == MAX_SHARDS,
                forall|j: int|
                    0 <= j < MAX_SHARDS ==> (#[trigger] all@[j]).0.number() == j + 1 && all@[j].1@
                        == shard_dir_of(self@, (j + 1) as nat),
                r@.len() == existing_to(disk@, self@, i as nat).len(),
                forall|j: int|
                    0 <= j < r@.len() ==> (#[trigger] r@[j]).0.number() == existing_to(
                        disk@,
                        self@,
                        i as nat,
                    )[j] && r@[j].1@ == shard_dir_of(
                        self@,
                        existing_to(disk@, self@, i as nat)[j],
                    ),
            decreases all@.len() - i,
        {
            assert(all@[i as int].0.number() == i + 1);
            if disk.has(&all[i].1) {
                r.push((all[i].0, all[i].1.duplicate()));
            }
            i = i + 1;
        }
        r
    }
}

// ---------------------------------------------------------------------------
// Deleting a profile
// ---------------------------------------------------------------------------

/// `p` stands at or below one of the first `k` directories.
pub open spec fn under_any(dirs: Seq<PathView>, k: int, p: PathView) -> bool {
    exists|j: int| 0 <= j < k && (#[trigger] dirs[j]).is_prefix_of(p)
}

/// The tree without the first `k` directories and everything below them.
pub open spec fn without_dirs(d: DiskView, dirs: Seq<PathView>, k: int) -> DiskView {
    d.restrict(Set::new(|p: PathView| !under_any(dirs, k, p)))
}

/// How many of the first `k` are directories, counted up to the first that is
/// not one.
pub open spec fn leading_dirs(d: DiskView, dirs: Seq<PathView>, k: int) -> int
    decreases k,
{
    if k <= 0 {
        0
    } else {
        let n = leading_dirs(d, dirs, k - 1);
        if n == k - 1 && is_dir_at(d, dirs[k - 1]) {
            k
        } else {
            n
        }
    }
}

proof fn lemma_leading_dirs(d: DiskView, dirs: Seq<PathView>, k: int)
    requires
        0 <= k <= dirs.len(),
    ensures
        0 <= leading_dirs(d, dirs, k) <= k,
        forall|i: int| 0 <= i < leading_dirs(d, dirs, k) ==> is_dir_at(d, #[trigger] dirs[i]),
        leading_dirs(d, dirs, k) < k ==> !is_dir_at(d, dirs[leading_dirs(d, dirs, k)]),
    decreases k,
{
    if k > 0 {
        lemma_leading_dirs(d, dirs, k - 1);
    }
}

/// Deleting a profile: all of its shard directories go, with everything in them.
/// One that is no directory ends it, after those before it.
pub open spec fn profile_removed(d: DiskView, p: PathView) -> (DiskView, Result<bool, ErrorView>) {
    match base_of(p, true) {
        None => (d, Err(ErrorView::Io(bad_base_text(p)))),
        Some(b) => {
            let dirs = shard_dirs(b, existing_of(d, b));
            let n = leading_dirs(d, dirs, dirs.len() as int);
            (
                without_dirs(d, dirs, n),
                if n < dirs.len() {
                    Err(ErrorView::Io(cannot_text("remove"@, dirs[n])))
                } else {
                    Ok(dirs.len() > 0)
                },
            )
        },
    }
}

pub open spec fn bool_result(r: Result<bool, Error>) -> Result<bool, ErrorView> {
    match r {
        Ok(x) => Ok(x),
        Err(e) => Err(e@),
    }
}

proof fn lemma_same_depth(a: PathView, b: PathView, p: PathView)
    requires
        a.len() == b.len(),
        a.is_prefix_of(p),
        b.is_prefix_of(p),
    ensures
        a == b,
{
    assert(a =~= b);
}

/// Where `dirs` have gone from the tree `d`, and `asides` hold them.
spec fn set_aside(d: DiskView, e: DiskView, dirs: Seq<PathView>, asides: Seq<PathView>, k: int) -> bool {
    forall|p: PathView|
        !under_any(asides, k, p) ==> (#[trigger] e.contains_key(p) <==> d.contains_key(p)
            && !under_any(dirs, k, p)) && (e.contains_key(p) ==> e[p] == d[p])
}

proof fn lemma_under_step(dirs: Seq<PathView>, k: int, p: PathView)
    requires
        0 <= k < dirs.len(),
    ensures
        under_any(dirs, k + 1, p) <==> under_any(dirs, k, p) || dirs[k].is_prefix_of(p),
{
    if under_any(dirs, k + 1, p) {
        let j = choose|j: int| 0 <= j < k + 1 && (#[trigger] dirs[j]).is_prefix_of(p);
        if j < k {
            assert(under_any(dirs, k, p));
        }
    }
    if under_any(dirs, k, p) {
        let j = choose|j: int| 0 <= j < k && (#[trigger] dirs[j]).is_prefix_of(p);
        assert(dirs[j].is_prefix_of(p));
    }
    if dirs[k].is_prefix_of(p) {
        assert(under_any(dirs, k + 1, p));
    }
}

/// Moving one more directory aside.
proof fn lemma_aside_step(
    d: DiskView,
    e: DiskView,
    dirs: Seq<PathView>,
    asides: Seq<PathView>,
    k: int,
    len: nat,
)
    requires
        0 <= k < dirs.len(),
        asides.len() > k,
        set_aside(d, e, dirs, asides, k),
        rooted(e),
        legal(e, OpView::MoveTree(dirs[k], asides[k])),
        forall|i: int| 0 <= i < dirs.len() ==> (#[trigger] dirs[i]).len() == len,
        forall|i: int| 0 <= i <= k ==> (#[trigger] asides[i]).len() == len,
        forall|i: int| 0 <= i < k ==> #[trigger] asides[i] != dirs[k],
    ensures
        set_aside(d, moved_tree(e, dirs[k], asides[k]), dirs, asides, k + 1),
{
    let a = dirs[k];
    let b = asides[k];
    let f = moved_tree(e, a, b);
    assert forall|p: PathView| !under_any(asides, k + 1, p) implies (#[trigger] f.contains_key(p)
        <==> d.contains_key(p) && !under_any(dirs, k + 1, p)) && (f.contains_key(p) ==> f[p]
        == d[p]) by {
        lemma_under_step(asides, k, p);
        lemma_under_step(dirs, k, p);
        assert(e.contains_key(p) <==> d.contains_key(p) && !under_any(dirs, k, p));
    }
}

proof fn lemma_clear_step(
    d: DiskView,
    e: DiskView,
    dirs: Seq<PathView>,
    asides: Seq<PathView>,
    n: int,
    b: PathView,
    k: int,
)
    requires
        0 <= k < n <= asides.len(),
        b == asides[k],
        set_aside(d, e, dirs, asides, n),
        forall|p: PathView| #[trigger] e.contains_key(p) ==> !under_any(asides, k, p),
    ensures
        set_aside(d, without_tree(e, b), dirs, asides, n),
        forall|p: PathView| #[trigger]
            without_tree(e, b).contains_key(p) ==> !under_any(asides, k + 1, p),
{
    let f = without_tree(e, b);
    assert forall|p: PathView| !under_any(asides, n, p) implies (#[trigger] f.contains_key(p) <==>
        d.contains_key(p) && !under_any(dirs, n, p)) && (f.contains_key(p) ==> f[p] == d[p]) by {
        assert(e.contains_key(p) <==> d.contains_key(p) && !under_any(dirs, n, p));
        if b.is_prefix_of(p) {
            assert(under_any(asides, n, p));
        }
    }
    assert forall|p: PathView| #[trigger] f.contains_key(p) implies !under_any(asides, k + 1, p) by {
        lemma_under_step(asides, k, p);
        assert(e.contains_key(p));
    }
}

/// The name for setting a directory aside at the given attempt.
spec fn attempt_name(name: Seq<char>, attempt: nat) -> Seq<char> {
    DELETE_STAGING_PREFIX@ + name + "-"@ + dec(attempt)
}

proof fn lemma_attempts_differ(name: Seq<char>, i: nat, j: nat)
    requires
        attempt_name(name, i) == attempt_name(name, j),
    ensures
        i == j,
{
    let stem = DELETE_STAGING_PREFIX@ + name + "-"@;
    assert(attempt_name(name, i).skip(stem.len() as int) =~= dec(i));
    assert(attempt_name(name, j).skip(stem.len() as int) =~= dec(j));
    text::lemma_dec_injective(i, j);
}

/// A free name under which a directory can be set aside beside itself.
fn aside_name(disk: &Disk, dir: &TreePath) -> (r: TreePath)
    requires
        dir@.len() > 0,
    ensures
        !exists_at(disk@, r@),
        aside_of(dir@, r@),
{
    let name = match dir.file_name() {
        Some(n) => n,
        None => "shard".to_owned(),
    };
    let parent = dir.first(dir.len() - 1);
    assert(parent@ =~= dir@.drop_last());
    let count: usize = disk.count();
    let mut attempt: usize = 0;
    let ghost mut taken: Set<PathView> = Set::empty();
    loop
        invariant
            parent@ == dir@.drop_last(),
            dir@.len() > 0,
            attempt <= count,
            count == disk@.dom().len(),
            disk@.dom().finite(),
            taken.finite(),
            taken.len() == attempt,
            taken.subset_of(disk@.dom()),
            forall|p: PathView| #[trigger]
                taken.contains(p) ==> exists|i: nat|
                    i < attempt && p == parent@.push(#[trigger] attempt_name(name@, i)),
        decreases count - attempt,
    {
        let mut s: String = DELETE_STAGING_PREFIX.to_owned();
        s.append(name.as_str());
        s.append("-");
        s.append(text::decimal(attempt as u64).as_str());
        let candidate = parent.child(s.as_str());
        assert(s@ == attempt_name(name@, attempt as nat));
        assert(candidate@.drop_last() =~= parent@);
        assert(s@.take(DELETE_STAGING_PREFIX@.len() as int) =~= DELETE_STAGING_PREFIX@);
        if !disk.has(&candidate) {
            return candidate;
        }
        proof {
            let p = candidate@;
            if taken.contains(p) {
                let i = choose|i: nat|
                    i < attempt && p == parent@.push(#[trigger] attempt_name(name@, i));
                assert(p.last() == attempt_name(name@, i));
                lemma_attempts_differ(name@, i, attempt as nat);
            }
            let more = taken.insert(p);
            assert(more.subset_of(disk@.dom()));
            vstd::set_lib::lemma_len_subset(more, disk@.dom());
            assert forall|q: PathView| #[trigger] more.contains(q) implies exists|i: nat|
                i < attempt + 1 && q == parent@.push(#[trigger] attempt_name(name@, i)) by {
                if q == p {
                    assert(q == parent@.push(attempt_name(name@, attempt as nat)));
                } else {
                    assert(taken.contains(q));
                    let i = choose|i: nat|
                        i < attempt && q == parent@.push(#[trigger] attempt_name(name@, i));
                    assert(q == parent@.push(attempt_name(name@, i)));
                }
            }
            taken = more;
        }
        attempt = attempt + 1;
    }
}

/// What holds of the name of a directory set aside.
spec fn aside_of(a: PathView, b: PathView) -> bool {
    a.len() > 0 && b.len() == a.len() && b.drop_last() == a.drop_last() && text::starts_with(
        b.last(),
        DELETE_STAGING_PREFIX@,
    )
}

/// A directory set aside is none of the shard directories but perhaps its own.
proof fn lemma_aside_apart(b: BaseView, m: nat, n: nat, aside: PathView)
    requires
        base_ok(b),
        valid_shard(m),
        valid_shard(n),
        m != n,
        aside_of(shard_dir_of(b, m), aside),
    ensures
        aside != shard_dir_of(b, n),
{
    let at = b.citadel.len() as int;
    let dm = shard_dir_of(b, m);
    let dn = shard_dir_of(b, n);
    assert(dm[at] == root_of(m));
    assert(dn[at] == root_of(n));
    if aside == dn {
        if at < aside.len() - 1 {
            assert(aside.drop_last()[at] == dm.drop_last()[at]);
            crate::shard::law_root_names_differ(m, n);
        } else {
            reveal_strlit(".dmm-deleting-");
            reveal_strlit("addons");
            assert(dn.last() == root_of(n));
            assert(aside.last()[0] == DELETE_STAGING_PREFIX@[0]) by {
                assert(aside.last().take(DELETE_STAGING_PREFIX@.len() as int)[0]
                    == aside.last()[0]);
            }
            assert(root_of(n)[0] == 'a');
            assert(DELETE_STAGING_PREFIX@[0] == '.');
        }
    }
}

/// Deletes every shard directory of a profile. Each is first set aside under
/// another name, and only when all are aside are they removed. Returns whether
/// there was any.
pub fn remove_profile_shards(disk: &mut Disk, base: &TreePath) -> (r: Result<bool, Error>)
    ensures
        moved_then_removed(*old(disk), *final(disk)),
        (final(disk)@, bool_result(r)) == profile_removed(old(disk)@, base@),
{
    let profile = match ProfileBase::new(base) {
        Ok(b) => b,
        Err(e) => {
            proof {
                lemma_unchanged_removed(*old(disk), *disk);
            }
            return Err(Error::Io(e.message()));
        },
    };
    let ghost d = disk@;
    let ghost b = profile@;
    let existing = profile.existing_shards(disk);
    let ghost shards = existing_of(d, b);
    let ghost dirs = shard_dirs(b, shards);
    proof {
        lemma_existing(d, b, MAX_SHARDS as nat);
        lemma_leading_dirs(d, dirs, dirs.len() as int);
    }
    let mut n: usize = 0;
    while n < existing.len() && disk.is_dir(&existing[n].1)
        invariant
            n <= existing@.len() == dirs.len(),
            disk@ == d,
            *disk == *old(disk),
            dirs == shard_dirs(b, shards),
            shards.len() == dirs.len(),
            forall|i: int|
                0 <= i < existing@.len() ==> (#[trigger] existing@[i]).1@ == shard_dir_of(
                    b,
                    shards[i],
                ),
            forall|i: int| 0 <= i < n ==> is_dir_at(d, #[trigger] dirs[i]),
        decreases existing@.len() - n,
    {
        assert(dirs[n as int] == existing@[n as int].1@);
        n = n + 1;
    }
    proof {
        if n < dirs.len() {
            assert(dirs[n as int] == existing@[n as int].1@);
        }
        lemma_leading_is(d, dirs, dirs.len() as int, n as int);
    }
    let ghost len = b.path.len();
    let mut work = disk.duplicate();
    proof {
        lemma_only_moved_same(*old(disk), work);
        assert(dirs.take(0) =~= Seq::<PathView>::empty());
    }
    let mut asides: Vec<TreePath> = Vec::new();
    let mut k: usize = 0;
    proof {
        assert forall|i: int| 0 <= i < dirs.len() implies (#[trigger] dirs[i]).len() == len by {
            assert(dirs[i] == shard_dir_of(b, shards[i]));
        }
        assert(path_views(asides@) =~= Seq::<PathView>::empty());
        assert(set_aside(d, work@, dirs, path_views(asides@), 0)) by {
            assert(forall|p: PathView| !under_any(dirs, 0, p));
        }
    }
    while k < n
        invariant
            k <= n <= existing@.len() == dirs.len(),
            dirs == shard_dirs(b, shards),
            shards.len() == dirs.len(),
            base_ok(b),
            len == b.path.len(),
            len > 0,
            disk@ == d,
            d == old(disk)@,
            *disk == *old(disk),
            only_moved(*old(disk), work, dirs.take(k as int), path_views(asides@)),
            rooted(work@),
            forall|i: int|
                0 <= i < existing@.len() ==> (#[trigger] existing@[i]).1@ == shard_dir_of(
                    b,
                    shards[i],
                ),
            forall|i: int| 0 <= i < dirs.len() ==> (#[trigger] dirs[i]).len() == len,
            forall|i: int| 0 <= i < shards.len() ==> valid_shard(#[trigger] shards[i]),
            forall|i: int, j: int|
                0 <= i < j < shards.len() ==> #[trigger] shards[i] < #[trigger] shards[j],
            forall|i: int| 0 <= i < n ==> is_dir_at(d, #[trigger] dirs[i]),
            asides@.len() == k,
            forall|i: int|
                0 <= i < k ==> aside_of(dirs[i], #[trigger] path_views(asides@)[i]),
            set_aside(d, work@, dirs, path_views(asides@), k as int),
            forall|p: PathView| #[trigger]
                d.contains_key(p) ==> !under_any(path_views(asides@), k as int, p),
            forall|i: int|
                0 <= i < k ==> is_dir_at(work@, #[trigger] path_views(asides@)[i]),
            forall|i: int, j: int|
                0 <= i < j < k ==> #[trigger] path_views(asides@)[i]
                    != #[trigger] path_views(asides@)[j],
        decreases n - k,
    {
        let dir = &existing[k].1;
        assert(dirs[k as int] == dir@);
        let ghost av = path_views(asides@);
        let aside = aside_name(&work, dir);
        let ghost bp = aside@;
        let ghost before = work@;
        proof {
            // the directory is still in its place
            assert forall|i: int| 0 <= i < k implies #[trigger] av[i] != dirs[k as int] by {
                assert(shards[i] < shards[k as int]);
                assert(dirs[i] == shard_dir_of(b, shards[i]));
                assert(dirs[k as int] == shard_dir_of(b, shards[k as int]));
                lemma_aside_apart(b, shards[i], shards[k as int], av[i]);
            }
            assert(!under_any(av, k as int, dirs[k as int])) by {
                if under_any(av, k as int, dirs[k as int]) {
                    let i = choose|i: int| 0 <= i < k && (#[trigger] av[i]).is_prefix_of(
                        dirs[k as int],
                    );
                    assert(av[i] =~= dirs[k as int]);
                }
            }
            assert(!under_any(dirs, k as int, dirs[k as int])) by {
                if under_any(dirs, k as int, dirs[k as int]) {
                    let i = choose|i: int| 0 <= i < k && (#[trigger] dirs[i]).is_prefix_of(
                        dirs[k as int],
                    );
                    assert(dirs[i] =~= dirs[k as int]);
                    assert(shards[i] < shards[k as int]);
                    crate::shard::law_shard_dirs_differ(b, shards[i], shards[k as int]);
                }
            }
            assert(before.contains_key(dirs[k as int]) <==> d.contains_key(dirs[k as int])
                && !under_any(dirs, k as int, dirs[k as int]));
            assert(is_dir_at(before, dir@));
            crate::disk::lemma_rooted_at(before, dir@);
            assert(path_parent(dir@) == Some(dir@.drop_last()));
            assert(path_parent(bp) == Some(bp.drop_last())) by {
                reveal_strlit(".dmm-deleting-");
                assert(DELETE_STAGING_PREFIX@.len() > 0);
                assert(bp.last().len() > 0);
            }
            assert(parent_ready(before, bp));
            if dir@.is_prefix_of(bp) {
                assert(dir@ =~= bp);
            }
            assert(legal(before, OpView::MoveTree(dir@, bp)));
        }
        let op = Op::MoveTree(dir.duplicate(), aside.duplicate());
        let ghost moving = work;
        work.perform(op);
        proof {
            lemma_only_moved(*old(disk), moving, work, dirs.take(k as int), av, dir@, bp);
            assert(dirs.take(k + 1) =~= dirs.take(k as int).push(dir@));
        }
        asides.push(aside);
        proof {
            let av1 = path_views(asides@);
            assert(av1 =~= av.push(bp));
            assert forall|p: PathView| under_any(av1, k as int, p) <==> under_any(av, k as int, p) by {
                if under_any(av1, k as int, p) {
                    let i = choose|i: int| 0 <= i < k && (#[trigger] av1[i]).is_prefix_of(p);
                    assert(av[i].is_prefix_of(p));
                }
                if under_any(av, k as int, p) {
                    let i = choose|i: int| 0 <= i < k && (#[trigger] av[i]).is_prefix_of(p);
                    assert(av1[i].is_prefix_of(p));
                }
            }
            assert(set_aside(d, before, dirs, av1, k as int));
            assert forall|i: int| 0 <= i < k implies #[trigger] av1[i] != dirs[k as int] by {
                assert(av1[i] == av[i]);
            }
            assert forall|i: int| 0 <= i <= k implies (#[trigger] av1[i]).len() == len by {
                if i < k {
                    assert(av1[i] == av[i]);
                    assert(aside_of(dirs[i], av[i]));
                }
            }
            lemma_aside_step(d, before, dirs, av1, k as int, len);
            assert forall|i: int| 0 <= i < k + 1 implies aside_of(dirs[i], #[trigger] av1[i]) by {
                if i < k {
                    assert(av1[i] == av[i]);
                }
            }
            assert forall|i: int, j: int| 0 <= i < j < k + 1 implies #[trigger] av1[i]
                != #[trigger] av1[j] by {
                assert(av1[i] == av[i]);
                assert(is_dir_at(before, av[i]));
                if j < k {
                    assert(av1[j] == av[j]);
                }
            }
            assert forall|i: int| 0 <= i < k + 1 implies is_dir_at(work@, #[trigger] av1[i]) by {
                if i < k {
                    assert(av1[i] == av[i]);
                    assert(is_dir_at(before, av[i]));
                    if bp.is_prefix_of(av[i]) {
                        assert(bp =~= av[i]);
                    }
                    if dir@.is_prefix_of(av[i]) {
                        assert(dir@ =~= av[i]);
                    }
                } else {
                    assert(bp.is_prefix_of(bp)) by {
                        assert(bp =~= bp.take(bp.len() as int));
                    }
                    assert(dir@ + bp.skip(bp.len() as int) =~= dir@);
                }
            }
            assert forall|p: PathView| #[trigger] d.contains_key(p) implies !under_any(
                av1,
                k + 1,
                p,
            ) by {
                lemma_under_step(av1, k as int, p);
                if bp.is_prefix_of(p) {
                    // nothing stood at or below the name that was free
                    assert(!under_any(av, k as int, p));
                    if under_any(dirs, k as int, p) {
                        let i = choose|i: int| 0 <= i < k && (#[trigger] dirs[i]).is_prefix_of(p);
                        lemma_same_depth(dirs[i], bp, p);
                        assert(shards[i] < shards[k as int]);
                        assert(dirs[i] == shard_dir_of(b, shards[i]));
                        assert(dirs[k as int] == shard_dir_of(b, shards[k as int]));
                        lemma_aside_apart(b, shards[k as int], shards[i], bp);
                    }
                    assert(before.contains_key(p));
                    crate::disk::lemma_below_exists(before, bp, p);
                }
            }
        }
        k = k + 1;
    }
    let ghost av = path_views(asides@);
    let ghost from = dirs.take(n as int);
    proof {
        assert forall|i: int| 0 <= i < n implies (#[trigger] av[i]).len() == len by {
            assert(aside_of(dirs[i], av[i]));
        }
        assert forall|i: int, j: int| 0 <= i < n && 0 <= j < n implies (#[trigger] from[i]).len()
            == (#[trigger] av[j]).len() && from[i] != av[j] by {
            assert(from[i] == dirs[i]);
            assert(aside_of(dirs[j], av[j]));
            if from[i] == av[j] {
                assert(is_dir_at(d, dirs[i]));
                assert(under_any(av, n as int, dirs[i])) by {
                    assert(av[j].is_prefix_of(dirs[i]));
                }
            }
        }
        assert forall|i: int, j: int| 0 <= i < j < n implies #[trigger] from[i]
            != #[trigger] from[j] by {
            assert(shards[i] < shards[j]);
            assert(from[i] == shard_dir_of(b, shards[i]));
            assert(from[j] == shard_dir_of(b, shards[j]));
            if from[i] == from[j] {
                crate::shard::law_shard_dirs_differ(b, shards[i], shards[j]);
            }
        }
        lemma_moves_done(*old(disk), work, from, av);
    }
    let mut m: usize = 0;
    assert(forall|p: PathView| !under_any(av, 0, p));
    while m < n
        invariant
            m <= n == asides@.len(),
            av == path_views(asides@),
            av.len() == n,
            partly_removed(*old(disk), work, from, av, m as int),
            set_aside(d, work@, dirs, av, n as int),
            forall|p: PathView| #[trigger]
                work@.contains_key(p) ==> !under_any(av, m as int, p),
            forall|i: int| m <= i < n ==> is_dir_at(work@, #[trigger] av[i]),
            forall|i: int, j: int| 0 <= i < j < n ==> #[trigger] av[i] != #[trigger] av[j],
            forall|i: int| 0 <= i < n ==> (#[trigger] av[i]).len() == len,
        decreases n - m,
    {
        assert(av[m as int] == asides@[m as int]@);
        let ghost before = work@;
        let ghost removing = work;
        work.perform(Op::RemoveTree { path: asides[m].duplicate(), lenient: false });
        proof {
            lemma_removed(*old(disk), removing, work, from, av, m as int);
            lemma_clear_step(d, before, dirs, av, n as int, av[m as int], m as int);
            assert forall|i: int| m + 1 <= i < n implies is_dir_at(work@, #[trigger] av[i]) by {
                if av[m as int].is_prefix_of(av[i]) {
                    assert(av[m as int] =~= av[i]);
                }
            }
        }
        m = m + 1;
    }
    proof {
        lemma_removals_done(*old(disk), work, from, av, n as int);
        let want = without_dirs(d, dirs, n as int);
        assert forall|p: PathView| #[trigger] work@.contains_key(p) <==> want.contains_key(p) by {
            if under_any(av, n as int, p) {
                assert(!d.contains_key(p));
            }
        }
        assert(work@ =~= want);
    }
    *disk = work;
    if n < existing.len() {
        let mut t: String = "Cannot ".to_owned();
        t.append("remove");
        t.append(" ");
        t.append(existing[n].1.to_text().as_str());
        assert(dirs[n as int] == existing@[n as int].1@);
        return Err(Error::Io(t));
    }
    Ok(n > 0)
}

proof fn lemma_leading_is(d: DiskView, dirs: Seq<PathView>, k: int, n: int)
    requires
        0 <= n <= k <= dirs.len(),
        forall|i: int| 0 <= i < n ==> is_dir_at(d, #[trigger] dirs[i]),
        n < k ==> !is_dir_at(d, dirs[n]),
    ensures
        leading_dirs(d, dirs, k) == n,
    decreases k,
{
    lemma_leading_dirs(d, dirs, k);
    let m = leading_dirs(d, dirs, k);
    if m < n {
        assert(is_dir_at(d, dirs[m]));
    }
    if n < m {
        assert(is_dir_at(d, dirs[n]));
    }
}

/// Deleting a profile takes every one of its shards, with everything in them, and
/// nothing else.
pub proof fn law_deleting_a_profile_takes_every_shard(d: DiskView, p: PathView)
    requires
        rooted(d),
        profile_removed(d, p).1 is Ok,
    ensures
        forall|n: nat, q: PathView|
            valid_shard(n) && (#[trigger] shard_dir_of(base_of(p, true)->0, n)).is_prefix_of(q)
                ==> !(#[trigger] profile_removed(d, p).0.contains_key(q)),
        forall|q: PathView|
            (forall|n: nat|
                valid_shard(n) ==> !(#[trigger] shard_dir_of(
                    base_of(p, true)->0,
                    n,
                )).is_prefix_of(q)) ==> #[trigger] same_at(d, profile_removed(d, p).0, q),
{
    let b = base_of(p, true)->0;
    let e = profile_removed(d, p).0;
    let shards = existing_of(d, b);
    let dirs = shard_dirs(b, shards);
    let k = dirs.len() as int;
    lemma_existing(d, b, MAX_SHARDS as nat);
    lemma_leading_dirs(d, dirs, k);
    crate::shard::lemma_base_ok(p, true);
    assert forall|n: nat, q: PathView|
        valid_shard(n) && (#[trigger] shard_dir_of(b, n)).is_prefix_of(q) implies !(
    #[trigger] e.contains_key(q)) by {
        let dir = shard_dir_of(b, n);
        if d.contains_key(q) {
            crate::vpk_manager::setting_aside::lemma_shard_dir(b, n);
            crate::disk::lemma_below_exists(d, dir, q);
            assert(shards.contains(n));
            let i = choose|i: int| 0 <= i < shards.len() && shards[i] == n;
            assert(dirs[i] == dir);
            assert(under_any(dirs, k, q));
        }
    }
    assert forall|q: PathView|
        (forall|n: nat| valid_shard(n) ==> !(#[trigger] shard_dir_of(b, n)).is_prefix_of(
            q,
        )) implies #[trigger] same_at(d, e, q) by {
        if under_any(dirs, k, q) {
            let j = choose|j: int| 0 <= j < k && (#[trigger] dirs[j]).is_prefix_of(q);
            assert(dirs[j] == shard_dir_of(b, shards[j]));
            assert(valid_shard(shards[j]));
        }
    }
}

} // verus!
