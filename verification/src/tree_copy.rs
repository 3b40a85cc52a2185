//! Copying the addon trees, and counting what they hold.
use crate::{shard, text};
use crate::disk::{
    all_paths, cannot_text, exists_at, is_below, is_dir_at, is_file_at, lemma_filter_members,
    lemma_filter_push, node_size, paths_below, Disk, DiskView,
};
use crate::error::{Error, ErrorView};
use crate::journal::{group_journal, undoable};
use crate::path::{PathView, TreePath};
use crate::shard::{internal_artifact, valid_shard, MAX_SHARDS};
use crate::vpk_manager::staging;
use crate::vpk_manager::staging::{run_plan, run_step, step_views, Step, StepView};
use crate::vpk_manifest::{path_views, MANIFEST_FILENAME, MANIFEST_TEMP_FILENAME};
use vstd::prelude::*;
use vstd::string::*;

pub mod counting;
pub mod faithful;

verus! {

broadcast use group_journal;

// ---------------------------------------------------------------------------
// What is copied, and where it goes
// ---------------------------------------------------------------------------

pub open spec fn linked_at(d: DiskView, p: PathView) -> bool {
    d.contains_key(p) && d[p].linked
}

/// The directory that the first `k` components of `p` lead to belongs to an
/// operation under way, or is reached through a link.
pub open spec fn hidden_part(d: DiskView, p: PathView, k: int) -> bool {
    internal_artifact(p[k - 1]) || linked_at(d, p.take(k))
}

/// A directory between `root` and `p` is hidden.
pub open spec fn hidden_above(d: DiskView, root: PathView, p: PathView) -> bool {
    exists|k: int| root.len() < k < p.len() && #[trigger] hidden_part(d, p, k)
}

/// Whether the copy of the tree at `root` holds a copy of `p`. What belongs to an
/// operation under way is left out, and so are links. A manifest that was written
/// but not put in its place counts if it is the only one.
pub open spec fn shown(d: DiskView, root: PathView, p: PathView) -> bool {
    !hidden_above(d, root, p) && if p.last() == MANIFEST_TEMP_FILENAME@ {
        !exists_at(d, p.drop_last().push(MANIFEST_FILENAME@))
    } else {
        !internal_artifact(p.last()) && !linked_at(d, p)
    }
}

/// Where the copy of `p` goes: to the same place below `dst`, a manifest to its
/// proper name.
pub open spec fn copy_target(src: PathView, dst: PathView, p: PathView) -> PathView {
    let rest = p.skip(src.len() as int);
    if p.last() == MANIFEST_TEMP_FILENAME@ {
        dst + rest.drop_last().push(MANIFEST_FILENAME@)
    } else {
        dst + rest
    }
}

pub open spec fn copy_step(d: DiskView, src: PathView, dst: PathView, p: PathView) -> StepView {
    if is_dir_at(d, p) && p.last() != MANIFEST_TEMP_FILENAME@ {
        StepView::MakeDirs(copy_target(src, dst, p))
    } else {
        StepView::Copy(p, copy_target(src, dst, p))
    }
}

/// The paths below `src` that are copied, in order.
pub open spec fn shown_below(d: DiskView, src: PathView) -> Seq<PathView> {
    paths_below(d, src).filter(|p: PathView| shown(d, src, p))
}

/// The steps that copy the tree at `src` to `dst`.
pub open spec fn copy_plan(d: DiskView, src: PathView, dst: PathView) -> Seq<StepView> {
    seq![StepView::MakeDirs(dst)] + shown_below(d, src).map_values(
        |p: PathView| copy_step(d, src, dst, p),
    )
}

/// Copying the tree at `src` to `dst`, over what is there.
pub open spec fn tree_copied(d: DiskView, src: PathView, dst: PathView) -> Result<
    DiskView,
    ErrorView,
> {
    match run_step(d, StepView::MakeDirs(dst)) {
        Err(e) => Err(e),
        Ok(_) => if !is_dir_at(d, src) {
            Err(ErrorView::Io(cannot_text("list"@, src)))
        } else {
            run_plan(d, copy_plan(d, src, dst))
        },
    }
}

/// Whether something stands at a path that was reached through a link.
fn is_linked(disk: &Disk, p: &TreePath) -> (r: bool)
    ensures
        r == linked_at(disk@, p@),
{
    match disk.node(p) {
        Some(n) => n.linked,
        None => false,
    }
}

fn is_hidden_above(disk: &Disk, root: &TreePath, p: &TreePath) -> (r: bool)
    ensures
        r == hidden_above(disk@, root@, p@),
{
    let n: usize = p.len();
    let mut k: usize = root.len();
    if k >= n {
        return false;
    }
    k = k + 1;
    while k < n
        invariant
            n == p@.len(),
            root@.len() < k <= n,
            forall|j: int| root@.len() < j < k ==> !#[trigger] hidden_part(disk@, p@, j),
        decreases n - k,
    {
        if shard::is_internal_artifact(p.part(k - 1)) || is_linked(disk, &p.first(k)) {
            assert(hidden_part(disk@, p@, k as int));
            return true;
        }
        k = k + 1;
    }
    false
}

fn is_shown(disk: &Disk, root: &TreePath, p: &TreePath) -> (r: bool)
    requires
        p@.len() > 0,
    ensures
        r == shown(disk@, root@, p@),
{
    if is_hidden_above(disk, root, p) {
        return false;
    }
    let n: usize = p.len();
    if text::same_text(p.part(n - 1), MANIFEST_TEMP_FILENAME) {
        assert(p@.take(n - 1) =~= p@.drop_last());
        !disk.has(&p.first(n - 1).child(MANIFEST_FILENAME))
    } else {
        !shard::is_internal_artifact(p.part(n - 1)) && !is_linked(disk, p)
    }
}

fn step_for(disk: &Disk, src: &TreePath, dst: &TreePath, p: &TreePath) -> (r: Step)
    requires
        p@.len() > src@.len(),
    ensures
        r@ == copy_step(disk@, src@, dst@, p@),
{
    let n: usize = p.len();
    if text::same_text(p.part(n - 1), MANIFEST_TEMP_FILENAME) {
        let rest = p.first(n - 1).rest(src.len());
        proof {
            assert(rest@ =~= p@.skip(src@.len() as int).drop_last());
            assert((dst@ + rest@).push(MANIFEST_FILENAME@) =~= dst@ + rest@.push(
                MANIFEST_FILENAME@,
            ));
        }
        Step::Copy(p.duplicate(), dst.followed_by(&rest).child(MANIFEST_FILENAME))
    } else {
        let target = dst.followed_by(&p.rest(src.len()));
        if disk.is_dir(p) {
            Step::MakeDirs(target)
        } else {
            Step::Copy(p.duplicate(), target)
        }
    }
}

/// Copies the tree at `src` to `dst`. After a failure the tree is some way into
/// the plan, and is to be dropped.
pub fn copy_tree(disk: &mut Disk, src: &TreePath, dst: &TreePath) -> (r: Result<(), Error>)
    ensures
        undoable(*old(disk), *final(disk)),
        match r {
            Ok(_) => tree_copied(old(disk)@, src@, dst@) == Ok::<DiskView, ErrorView>(final(disk)@),
            Err(e) => tree_copied(old(disk)@, src@, dst@) == Err::<DiskView, ErrorView>(e@),
        },
{
    let ghost d = disk@;
    if !disk.is_dir(src) {
        disk.create_dir_all(dst)?;
        let mut m: String = "Cannot list ".to_owned();
        m.append(src.to_text().as_str());
        proof {
            reveal_strlit("Cannot list ");
            reveal_strlit("Cannot ");
            reveal_strlit("list");
            reveal_strlit(" ");
            assert("Cannot list "@ =~= "Cannot "@ + "list"@ + " "@);
            assert(m@ =~= cannot_text("list"@, src@));
        }
        return Err(Error::Io(m));
    }
    let below = disk.below(src);
    let ghost all = paths_below(d, src@);
    let ghost pred = |p: PathView| shown(d, src@, p);
    let ghost show = |p: PathView| copy_step(d, src@, dst@, p);
    let mut steps: Vec<Step> = Vec::new();
    steps.push(Step::MakeDirs(dst.duplicate()));
    let ghost head = seq![StepView::MakeDirs(dst@)];
    let mut i: usize = 0;
    proof {
        reveal(Seq::filter);
        assert(all.take(0).filter(pred) =~= Seq::<PathView>::empty());
        assert(step_views(steps@) =~= head + all.take(0).filter(pred).map_values(show));
        lemma_filter_members(all_paths(d), |p: PathView| is_below(src@, p));
    }
    while i < below.len()
        invariant
            i <= below@.len(),
            disk@ == d,
            d == old(disk)@,
            undoable(*old(disk), *disk),
            path_views(below@) == all,
            all == paths_below(d, src@),
            forall|p: PathView| #[trigger] all.contains(p) ==> is_below(src@, p),
            pred == (|p: PathView| shown(d, src@, p)),
            show == (|p: PathView| copy_step(d, src@, dst@, p)),
            step_views(steps@) == head + all.take(i as int).filter(pred).map_values(show),
        decreases below@.len() - i,
    {
        let ghost p = all[i as int];
        let ghost so_far = all.take(i as int).filter(pred);
        proof {
            assert(p == below@[i as int]@);
            assert(all.contains(p));
            assert(all.take(i + 1) =~= all.take(i as int).push(p));
            lemma_filter_push(all.take(i as int), p, pred);
            assert(head + so_far.push(p).map_values(show) =~= (head + so_far.map_values(
                show,
            )).push(show(p)));
        }
        if is_shown(disk, src, &below[i]) {
            let step = step_for(disk, src, dst, &below[i]);
            proof {
                staging::lemma_step_views_push(steps@, step);
            }
            steps.push(step);
        }
        i = i + 1;
    }
    proof {
        assert(all.take(all.len() as int) =~= all);
        assert(step_views(steps@) == copy_plan(d, src@, dst@));
        let plan = copy_plan(d, src@, dst@);
        assert(plan[0] == StepView::MakeDirs(dst@));
        if run_step(d, StepView::MakeDirs(dst@)) is Err {
            assert(staging::run_first(d, plan, 0) == Ok::<DiskView, ErrorView>(d));
            assert(staging::run_first(d, plan, 1) == run_step(d, plan[0]));
            staging::lemma_run_stops(d, plan, 1, plan.len() as int);
        }
    }
    staging::carry_out(disk, &steps)
}

// ---------------------------------------------------------------------------
// Counting
// ---------------------------------------------------------------------------

/// The bytes, the files and the VPK files of a tree.
#[derive(Debug)]
pub struct TreeStats {
    pub bytes: u64,
    pub files: u64,
    pub vpks: u32,
}

pub struct StatsView {
    pub bytes: nat,
    pub files: nat,
    pub vpks: nat,
}

impl View for TreeStats {
    type V = StatsView;

    open spec fn view(&self) -> StatsView {
        StatsView { bytes: self.bytes as nat, files: self.files as nat, vpks: self.vpks as nat }
    }
}

pub open spec fn is_letter(c: char, small: char, capital: char) -> bool {
    c == small || c == capital
}

/// A file name with the extension `vpk`, in capitals or not.
pub open spec fn vpk_extension(name: Seq<char>) -> bool {
    let n = name.len() as int;
    n > 4 && name[n - 4] == '.' && is_letter(name[n - 3], 'v', 'V') && is_letter(
        name[n - 2],
        'p',
        'P',
    ) && is_letter(name[n - 1], 'k', 'K')
}

/// The sizes of the files at a list of paths.
pub open spec fn sizes_sum(d: DiskView, paths: Seq<PathView>) -> nat
    decreases paths.len(),
{
    if paths.len() == 0 {
        0
    } else {
        sizes_sum(d, paths.drop_last()) + node_size(d[paths.last()]) as nat
    }
}

/// What a list of files holds.
pub open spec fn stats_of(d: DiskView, files: Seq<PathView>) -> StatsView {
    StatsView {
        bytes: sizes_sum(d, files),
        files: files.len(),
        vpks: files.filter(|p: PathView| vpk_extension(p.last())).len(),
    }
}

/// A file below `root` that is reached without a link.
pub open spec fn counted(d: DiskView, root: PathView, p: PathView) -> bool {
    is_file_at(d, p) && forall|k: int|
        root.len() < k <= p.len() ==> !#[trigger] linked_at(d, p.take(k))
}

/// What the tree at `root` holds.
pub open spec fn tree_stats(d: DiskView, root: PathView) -> StatsView {
    stats_of(d, paths_below(d, root).filter(|p: PathView| counted(d, root, p)))
}

/// The totals fit the counters.
pub open spec fn fits(s: StatsView) -> bool {
    s.bytes <= u64::MAX && s.vpks <= u32::MAX
}

proof fn lemma_sum_prefix(d: DiskView, s: Seq<PathView>, k: int)
    requires
        0 <= k <= s.len(),
    ensures
        sizes_sum(d, s.take(k)) <= sizes_sum(d, s),
    decreases s.len() - k,
{
    if k < s.len() {
        lemma_sum_prefix(d, s, k + 1);
        assert(s.take(k + 1).drop_last() =~= s.take(k));
    } else {
        assert(s.take(k) =~= s);
    }
}

fn is_vpk_extension(name: &str) -> (r: bool)
    ensures
        r == vpk_extension(name@),
{
    let n: usize = name.unicode_len();
    if n <= 4 {
        return false;
    }
    let a = name.get_char(n - 3);
    let b = name.get_char(n - 2);
    let c = name.get_char(n - 1);
    name.get_char(n - 4) == '.' && (a == 'v' || a == 'V') && (b == 'p' || b == 'P') && (c == 'k'
        || c == 'K')
}

fn size_at(disk: &Disk, p: &TreePath) -> (r: u64)
    requires
        disk@.contains_key(p@),
    ensures
        r == node_size(disk@[p@]),
{
    match disk.node(p) {
        Some(n) => match n.body {
            crate::disk::Body::Folder => 0,
            crate::disk::Body::Blob { id, size } => size,
            crate::disk::Body::Manifest { manifest, size } => size,
        },
        None => 0,
    }
}

proof fn lemma_filter_prefix(s: Seq<PathView>, pred: spec_fn(PathView) -> bool, k: int)
    requires
        0 <= k <= s.len(),
    ensures
        s.take(k).filter(pred).len() <= s.filter(pred).len(),
    decreases s.len() - k,
{
    if k < s.len() {
        lemma_filter_prefix(s, pred, k + 1);
        assert(s.take(k + 1) =~= s.take(k).push(s[k]));
        lemma_filter_push(s.take(k), s[k], pred);
    } else {
        assert(s.take(k) =~= s);
    }
}

/// What a list of files holds, if the totals fit the counters.
fn count_files(disk: &Disk, files: &Vec<TreePath>) -> (r: Option<TreeStats>)
    requires
        forall|i: int|
            0 <= i < files@.len() ==> disk@.contains_key(#[trigger] path_views(files@)[i])
                && path_views(files@)[i].len() > 0,
    ensures
        match r {
            Some(s) => s@ == stats_of(disk@, path_views(files@)) && fits(s@),
            None => !fits(stats_of(disk@, path_views(files@))),
        },
{
    let ghost d = disk@;
    let ghost all = path_views(files@);
    let ghost pred = |p: PathView| vpk_extension(p.last());
    let mut bytes: u64 = 0;
    let mut vpks: u32 = 0;
    let mut i: usize = 0;
    proof {
        reveal(Seq::filter);
        assert(all.take(0) =~= Seq::<PathView>::empty());
        assert(all.take(0).filter(pred) =~= Seq::<PathView>::empty());
    }
    while i < files.len()
        invariant
            i <= files@.len(),
            d == disk@,
            all == path_views(files@),
            forall|j: int|
                0 <= j < files@.len() ==> d.contains_key(#[trigger] all[j]) && all[j].len() > 0,
            pred == (|p: PathView| vpk_extension(p.last())),
            bytes == sizes_sum(d, all.take(i as int)),
            vpks == all.take(i as int).filter(pred).len(),
        decreases files@.len() - i,
    {
        let p = &files[i];
        proof {
            assert(all[i as int] == p@);
            assert(all.take(i + 1) =~= all.take(i as int).push(p@));
            assert(all.take(i + 1).drop_last() =~= all.take(i as int));
            lemma_filter_push(all.take(i as int), p@, pred);
            lemma_sum_prefix(d, all, i + 1);
            lemma_filter_prefix(all, pred, i + 1);
        }
        let size: u64 = size_at(disk, p);
        if size > u64::MAX - bytes {
            return None;
        }
        bytes = bytes + size;
        let n: usize = p.len();
        if is_vpk_extension(p.part(n - 1)) {
            if vpks == u32::MAX {
                return None;
            }
            vpks = vpks + 1;
        }
        i = i + 1;
    }
    assert(all.take(all.len() as int) =~= all);
    Some(TreeStats { bytes, files: files.len() as u64, vpks })
}

fn is_counted(disk: &Disk, root: &TreePath, p: &TreePath) -> (r: bool)
    ensures
        r == counted(disk@, root@, p@),
{
    if !disk.is_file(p) {
        return false;
    }
    let n: usize = p.len();
    let mut k: usize = root.len();
    while k < n
        invariant
            n == p@.len(),
            root@.len() <= k,
            k <= n || k == root@.len(),
            forall|j: int| root@.len() < j <= k && j <= n ==> !#[trigger] linked_at(disk@, p@.take(j)),
        decreases n - k,
    {
        k = k + 1;
        if is_linked(disk, &p.first(k)) {
            assert(linked_at(disk@, p@.take(k as int)));
            return false;
        }
    }
    true
}

/// What the tree at `root` holds.
pub fn stats_below(disk: &Disk, root: &TreePath) -> (r: TreeStats)
    requires
        fits(tree_stats(disk@, root@)),
    ensures
        r@ == tree_stats(disk@, root@),
{
    match count_below(disk, root) {
        Some(s) => s,
        None => TreeStats { bytes: 0, files: 0, vpks: 0 },
    }
}

/// Whether the totals of the tree at `root` fit the counters.
pub fn can_count_below(disk: &Disk, root: &TreePath) -> (r: bool)
    ensures
        r == fits(tree_stats(disk@, root@)),
{
    count_below(disk, root).is_some()
}

fn count_below(disk: &Disk, root: &TreePath) -> (r: Option<TreeStats>)
    ensures
        match r {
            Some(s) => s@ == tree_stats(disk@, root@) && fits(s@),
            None => !fits(tree_stats(disk@, root@)),
        },
{
    let ghost d = disk@;
    let below = disk.below(root);
    let ghost all = paths_below(d, root@);
    let ghost pred = |p: PathView| counted(d, root@, p);
    let mut files: Vec<TreePath> = Vec::new();
    let mut i: usize = 0;
    proof {
        reveal(Seq::filter);
        assert(all.take(0).filter(pred) =~= Seq::<PathView>::empty());
        assert(path_views(files@) =~= Seq::<PathView>::empty());
    }
    while i < below.len()
        invariant
            i <= below@.len(),
            d == disk@,
            path_views(below@) == all,
            pred == (|p: PathView| counted(d, root@, p)),
            path_views(files@) == all.take(i as int).filter(pred),
        decreases below@.len() - i,
    {
        proof {
            assert(all[i as int] == below@[i as int]@);
            assert(all.take(i + 1) =~= all.take(i as int).push(all[i as int]));
            lemma_filter_push(all.take(i as int), all[i as int], pred);
        }
        if is_counted(disk, root, &below[i]) {
            let p = below[i].duplicate();
            assert(path_views(files@.push(p)) =~= path_views(files@).push(p@));
            files.push(p);
        }
        i = i + 1;
    }
    proof {
        assert(all.take(all.len() as int) =~= all);
        let kept = all.filter(pred);
        assert(path_views(files@) == kept);
        lemma_filter_members(all, pred);
        lemma_filter_members(all_paths(d), |p: PathView| is_below(root@, p));
        assert(kept.len() == files@.len());
        assert forall|j: int| 0 <= j < files@.len() implies d.contains_key(
            #[trigger] path_views(files@)[j],
        ) && path_views(files@)[j].len() > 0 by {
            assert(kept.contains(kept[j]));
        }
    }
    count_files(disk, &files)
}

// ---------------------------------------------------------------------------
// The shard roots together
// ---------------------------------------------------------------------------

/// The root of shard `n` in a directory.
pub open spec fn root_path(dir: PathView, n: nat) -> PathView {
    dir.push(shard::root_of(n))
}

/// A file of one of the shard roots that is copied.
pub open spec fn shown_file(d: DiskView, dir: PathView, p: PathView) -> bool {
    is_file_at(d, p) && exists|n: nat|
        valid_shard(n) && is_below(root_path(dir, n), p) && #[trigger] shown(
            d,
            root_path(dir, n),
            p,
        )
}

/// What the shard roots in a directory hold, as far as it is copied.
pub open spec fn roots_stats(d: DiskView, dir: PathView) -> StatsView {
    stats_of(d, paths_below(d, dir).filter(|p: PathView| shown_file(d, dir, p)))
}

fn is_shown_file(disk: &Disk, dir: &TreePath, p: &TreePath) -> (r: bool)
    ensures
        r == shown_file(disk@, dir@, p@),
{
    if !disk.is_file(p) {
        return false;
    }
    let all = shard::all_shards();
    let mut i: usize = 0;
    assert(all@.len() == shard::numbers(all@).len());
    while i < all.len()
        invariant
            i <= all@.len() == MAX_SHARDS,
            shard::numbers(all@) == Seq::new(MAX_SHARDS as nat, |i: int| (i + 1) as nat),
            is_file_at(disk@, p@),
            forall|n: nat|
                1 <= n <= i ==> !(is_below(root_path(dir@, n), p@) && #[trigger] shown(
                    disk@,
                    root_path(dir@, n),
                    p@,
                )),
        decreases all@.len() - i,
    {
        assert(shard::numbers(all@)[i as int] == i + 1);
        let root = dir.child(all[i].root_name().as_str());
        assert(root@ == root_path(dir@, (i + 1) as nat));
        if p.len() > root.len() && p.starts_with(&root) && is_shown(disk, &root, p) {
            assert(shown(disk@, root_path(dir@, (i + 1) as nat), p@));
            assert(valid_shard((i + 1) as nat));
            return true;
        }
        i = i + 1;
    }
    false
}

/// What the shard roots in a directory hold, as far as it is copied.
pub fn stats_of_roots(disk: &Disk, dir: &TreePath) -> (r: TreeStats)
    requires
        fits(roots_stats(disk@, dir@)),
    ensures
        r@ == roots_stats(disk@, dir@),
{
    match count_roots(disk, dir) {
        Some(s) => s,
        None => TreeStats { bytes: 0, files: 0, vpks: 0 },
    }
}

/// Whether the totals of the shard roots in a directory fit the counters.
pub fn can_count_roots(disk: &Disk, dir: &TreePath) -> (r: bool)
    ensures
        r == fits(roots_stats(disk@, dir@)),
{
    count_roots(disk, dir).is_some()
}

fn count_roots(disk: &Disk, dir: &TreePath) -> (r: Option<TreeStats>)
    ensures
        match r {
            Some(s) => s@ == roots_stats(disk@, dir@) && fits(s@),
            None => !fits(roots_stats(disk@, dir@)),
        },
{
    let ghost d = disk@;
    let below = disk.below(dir);
    let ghost all = paths_below(d, dir@);
    let ghost pred = |p: PathView| shown_file(d, dir@, p);
    let mut files: Vec<TreePath> = Vec::new();
    let mut i: usize = 0;
    proof {
        reveal(Seq::filter);
        assert(all.take(0).filter(pred) =~= Seq::<PathView>::empty());
        assert(path_views(files@) =~= Seq::<PathView>::empty());
    }
    while i < below.len()
        invariant
            i <= below@.len(),
            d == disk@,
            path_views(below@) == all,
            pred == (|p: PathView| shown_file(d, dir@, p)),
            path_views(files@) == all.take(i as int).filter(pred),
        decreases below@.len() - i,
    {
        proof {
            assert(all[i as int] == below@[i as int]@);
            assert(all.take(i + 1) =~= all.take(i as int).push(all[i as int]));
            lemma_filter_push(all.take(i as int), all[i as int], pred);
        }
        if is_shown_file(disk, dir, &below[i]) {
            let p = below[i].duplicate();
            assert(path_views(files@.push(p)) =~= path_views(files@).push(p@));
            files.push(p);
        }
        i = i + 1;
    }
    proof {
        assert(all.take(all.len() as int) =~= all);
        let kept = all.filter(pred);
        assert(path_views(files@) == kept);
        lemma_filter_members(all, pred);
        lemma_filter_members(all_paths(d), |p: PathView| is_below(dir@, p));
        assert(kept.len() == files@.len());
        assert forall|j: int| 0 <= j < files@.len() implies d.contains_key(
            #[trigger] path_views(files@)[j],
        ) && path_views(files@)[j].len() > 0 by {
            assert(kept.contains(kept[j]));
        }
    }
    count_files(disk, &files)
}

} // verus!
