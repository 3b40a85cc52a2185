//! Setting files aside while others take their places, and putting back what an
//! interrupted operation left aside.
use super::{naming, VpkManager};
use super::naming::{free_from, pak_name, pak_number};
use crate::disk::{
    apply, can_rename, cannot_text, dirs_possible, exists_at, is_dir_at, legal, names_in,
    renamed, with_dirs, without_tree, Disk, DiskView, OpView,
};
use crate::error::{unit_result, Error, ErrorView};
use crate::journal::{decided, group_journal, lemma_transaction, ordered, transacted, undoable};
use crate::path::{path_name, path_parent, path_text, PathView, TreePath};
use crate::shard::{
    shard_at, shard_dir_of, staged_of, staged_text, BaseView, LocatorView, ProfileBase,
    StagedName,
};
use crate::text::texts;
use vstd::prelude::*;
use vstd::string::*;

verus! {

broadcast use group_journal;

/// What to do with a staged file whose place is taken.
#[derive(Clone, Copy, PartialEq, Eq, Structural)]
pub enum RecoveryMode {
    /// Fail.
    Strict,
    /// Give an enabled VPK the next free number instead.
    AvoidEnabledCollisions,
}

pub open spec fn no_free_name_text(dir: PathView) -> Seq<char> {
    "No free VPK slot in "@ + path_text(dir)
}

/// The failure to find a free number in a directory.
pub fn no_free_name(dir: &TreePath) -> (r: Error)
    ensures
        r@ == ErrorView::ModInvalid(no_free_name_text(dir@)),
{
    let mut m: String = "No free VPK slot in ".to_owned();
    m.append(dir.to_text().as_str());
    Error::ModInvalid(m)
}

pub open spec fn place_taken_text(name: Seq<char>) -> Seq<char> {
    "Cannot recover staged VPK because its destination exists: "@ + name
}

/// The name under which a staged file returns to the directory `dir`.
pub open spec fn recovered_name(
    d: DiskView,
    dir: PathView,
    staged: Seq<char>,
    filename: Seq<char>,
    mode: RecoveryMode,
) -> Result<Seq<char>, ErrorView> {
    if !exists_at(d, dir.push(filename)) {
        Ok(filename)
    } else if mode == RecoveryMode::AvoidEnabledCollisions && pak_number(filename) is Some {
        match free_from(d, dir, 1) {
            Some(n) => Ok(pak_name(n)),
            None => Err(ErrorView::ModInvalid(no_free_name_text(dir))),
        }
    } else {
        Err(ErrorView::ModInvalid(place_taken_text(staged)))
    }
}

/// Putting one staged file back into its shard.
pub open spec fn recover_one(
    d: DiskView,
    b: BaseView,
    stage: PathView,
    name: Seq<char>,
    mode: RecoveryMode,
) -> (DiskView, Result<(), ErrorView>) {
    match staged_of(name) {
        Err(e) => (d, Err(e)),
        Ok(l) => {
            let dir = shard_dir_of(b, l.shard);
            if !dirs_possible(d, dir) {
                (d, Err(ErrorView::Io(cannot_text("create directory"@, dir))))
            } else {
                let d1 = with_dirs(d, dir);
                match recovered_name(d1, dir, name, l.filename, mode) {
                    Err(e) => (d1, Err(e)),
                    Ok(target) => if can_rename(d1, stage.push(name), dir.push(target)) {
                        (renamed(d1, stage.push(name), dir.push(target)), Ok(()))
                    } else {
                        (d1, Err(ErrorView::Io(cannot_text("rename"@, stage.push(name)))))
                    },
                }
            }
        },
    }
}

/// Putting back the first `k` of a list of staged files, up to the first failure.
pub open spec fn recover_first(
    d: DiskView,
    b: BaseView,
    stage: PathView,
    names: Seq<Seq<char>>,
    mode: RecoveryMode,
    k: int,
) -> (DiskView, Result<(), ErrorView>)
    decreases k,
{
    if k <= 0 {
        (d, Ok(()))
    } else {
        let (d1, r) = recover_first(d, b, stage, names, mode, k - 1);
        match r {
            Err(e) => (d1, Err(e)),
            Ok(_) => recover_one(d1, b, stage, names[k - 1], mode),
        }
    }
}

/// Putting back everything in a staging directory, and removing it.
pub open spec fn recovered(d: DiskView, b: BaseView, stage: PathView, mode: RecoveryMode) -> (
    DiskView,
    Result<(), ErrorView>,
) {
    if !is_dir_at(d, stage) {
        (d, Err(ErrorView::Io(cannot_text("list"@, stage))))
    } else {
        let names = names_in(d, stage);
        let (d1, r) = recover_first(d, b, stage, names, mode, names.len() as int);
        match r {
            Err(e) => (d1, Err(e)),
            Ok(_) => if is_dir_at(d1, stage) {
                (without_tree(d1, stage), Ok(()))
            } else {
                (d1, Err(ErrorView::Io(cannot_text("remove"@, stage))))
            },
        }
    }
}

fn recover_file(
    disk: &mut Disk,
    base: &ProfileBase,
    stage: &TreePath,
    name: &str,
    mode: RecoveryMode,
) -> (r: Result<(), Error>)
    ensures
        undoable(*old(disk), *final(disk)),
        (final(disk)@, unit_result(r)) == recover_one(old(disk)@, base@, stage@, name@, mode),
{
    let staged = StagedName::parse(name)?;
    let dir = base.shard_dir(staged.shard);
    disk.create_dir_all(&dir)?;
    let wanted = dir.child(staged.filename.as_str());
    let target = if !disk.has(&wanted) {
        wanted
    } else if mode == RecoveryMode::AvoidEnabledCollisions && VpkManager::is_enabled_vpk_name(
        staged.filename.as_str(),
    ) {
        match naming::next_free_number(disk, &dir) {
            Some(n) => dir.child(naming::enabled_vpk_name(n).as_str()),
            None => {
                return Err(no_free_name(&dir));
            },
        }
    } else {
        let mut m: String =
            "Cannot recover staged VPK because its destination exists: ".to_owned();
        m.append(name);
        return Err(Error::ModInvalid(m));
    };
    disk.rename(&stage.child(name), &target)
}

/// Puts back everything in a staging directory, and removes it.
pub fn recover_staging_directory(
    disk: &mut Disk,
    base: &ProfileBase,
    stage: &TreePath,
    mode: RecoveryMode,
) -> (r: Result<(), Error>)
    ensures
        ordered(*old(disk), *final(disk)),
        (final(disk)@, unit_result(r)) == recovered(old(disk)@, base@, stage@, mode),
{
    if !disk.is_dir(stage) {
        return Err(cannot_list(stage));
    }
    let names = disk.names(stage);
    let ghost d = disk@;
    let ghost all = names_in(d, stage@);
    let mut i: usize = 0;
    while i < names.len()
        invariant
            i <= names@.len(),
            texts(names@) == all,
            d == old(disk)@,
            all == names_in(d, stage@),
            is_dir_at(d, stage@),
            ordered(*old(disk), *disk),
            (disk@, Ok::<(), ErrorView>(())) == recover_first(
                d,
                base@,
                stage@,
                all,
                mode,
                i as int,
            ),
        decreases names@.len() - i,
    {
        assert(all[i as int] == names@[i as int]@);
        let r = recover_file(disk, base, stage, names[i].as_str(), mode);
        match r {
            Ok(_) => {},
            Err(e) => {
                proof {
                    lemma_recover_stops(d, base@, stage@, all, mode, i + 1, all.len() as int);
                }
                return Err(e);
            },
        }
        i = i + 1;
    }
    disk.remove_dir_all(stage)
}

/// A failure among the first `k` is the outcome of all.
proof fn lemma_recover_stops(
    d: DiskView,
    b: BaseView,
    stage: PathView,
    names: Seq<Seq<char>>,
    mode: RecoveryMode,
    k: int,
    n: int,
)
    requires
        0 <= k <= n,
        recover_first(d, b, stage, names, mode, k).1 is Err,
    ensures
        recover_first(d, b, stage, names, mode, n) == recover_first(d, b, stage, names, mode, k),
    decreases n - k,
{
    if k < n {
        lemma_recover_stops(d, b, stage, names, mode, k, n - 1);
    }
}

/// The failure to list a directory.
pub fn cannot_list(p: &TreePath) -> (r: Error)
    ensures
        r@ == ErrorView::Io(cannot_text("list"@, p@)),
{
    let mut m: String = "Cannot ".to_owned();
    m.append("list");
    m.append(" ");
    m.append(p.to_text().as_str());
    Error::Io(m)
}

// ---------------------------------------------------------------------------
// Plans: directories to make, files to rename and files to copy, in order
// ---------------------------------------------------------------------------

pub enum Step {
    MakeDirs(TreePath),
    Rename(TreePath, TreePath),
    Copy(TreePath, TreePath),
}

pub enum StepView {
    MakeDirs(PathView),
    Rename(PathView, PathView),
    Copy(PathView, PathView),
}

impl View for Step {
    type V = StepView;

    open spec fn view(&self) -> StepView {
        match self {
            Step::MakeDirs(p) => StepView::MakeDirs(p@),
            Step::Rename(a, b) => StepView::Rename(a@, b@),
            Step::Copy(a, b) => StepView::Copy(a@, b@),
        }
    }
}

pub open spec fn step_views(v: Seq<Step>) -> Seq<StepView> {
    v.map_values(|s: Step| s@)
}

pub proof fn lemma_step_views_push(v: Seq<Step>, s: Step)
    ensures
        step_views(v.push(s)) == step_views(v).push(s@),
{
    assert(step_views(v.push(s)) =~= step_views(v).push(s@));
}

/// The tree after one step.
pub open spec fn run_step(d: DiskView, s: StepView) -> Result<DiskView, ErrorView> {
    match s {
        StepView::MakeDirs(p) => if dirs_possible(d, p) {
            Ok(with_dirs(d, p))
        } else {
            Err(ErrorView::Io(cannot_text("create directory"@, p)))
        },
        StepView::Rename(a, b) => if can_rename(d, a, b) {
            Ok(renamed(d, a, b))
        } else {
            Err(ErrorView::Io(cannot_text("rename"@, a)))
        },
        StepView::Copy(a, b) => if legal(d, OpView::Copy(a, b)) {
            Ok(apply(d, OpView::Copy(a, b)))
        } else {
            Err(ErrorView::Io(cannot_text("copy"@, a)))
        },
    }
}

/// The tree after the first `k` steps, or the first failure among them.
pub open spec fn run_first(d: DiskView, steps: Seq<StepView>, k: int) -> Result<
    DiskView,
    ErrorView,
>
    decreases k,
{
    if k <= 0 {
        Ok(d)
    } else {
        match run_first(d, steps, k - 1) {
            Err(e) => Err(e),
            Ok(d1) => run_step(d1, steps[k - 1]),
        }
    }
}

/// The tree after a plan.
pub open spec fn run_plan(d: DiskView, steps: Seq<StepView>) -> Result<DiskView, ErrorView> {
    run_first(d, steps, steps.len() as int)
}

pub proof fn lemma_run_stops(d: DiskView, steps: Seq<StepView>, k: int, n: int)
    requires
        0 <= k <= n,
        run_first(d, steps, k) is Err,
    ensures
        run_first(d, steps, n) == run_first(d, steps, k),
    decreases n - k,
{
    if k < n {
        lemma_run_stops(d, steps, k, n - 1);
    }
}

/// Carries out a plan. After a failure the tree is some way into the plan, and is
/// to be dropped.
pub fn carry_out(disk: &mut Disk, steps: &Vec<Step>) -> (r: Result<(), Error>)
    ensures
        undoable(*old(disk), *final(disk)),
        match r {
            Ok(_) => run_plan(old(disk)@, step_views(steps@)) == Ok::<DiskView, ErrorView>(
                final(disk)@,
            ),
            Err(e) => run_plan(old(disk)@, step_views(steps@)) == Err::<DiskView, ErrorView>(e@),
        },
{
    let ghost d = disk@;
    let ghost plan = step_views(steps@);
    let mut i: usize = 0;
    while i < steps.len()
        invariant
            i <= steps@.len(),
            plan == step_views(steps@),
            d == old(disk)@,
            undoable(*old(disk), *disk),
            run_first(d, plan, i as int) == Ok::<DiskView, ErrorView>(disk@),
        decreases steps@.len() - i,
    {
        assert(plan[i as int] == steps@[i as int]@);
        let r = match &steps[i] {
            Step::MakeDirs(p) => disk.create_dir_all(p),
            Step::Rename(a, b) => disk.rename(a, b),
            Step::Copy(a, b) => disk.copy_file(a, b),
        };
        match r {
            Ok(_) => {},
            Err(e) => {
                assert(run_first(d, plan, i + 1) is Err);
                proof {
                    lemma_run_stops(d, plan, i + 1, plan.len() as int);
                }
                return Err(e);
            },
        }
        i = i + 1;
    }
    Ok(())
}

// ---------------------------------------------------------------------------
// Staging
// ---------------------------------------------------------------------------

/// Where a VPK of a profile is set aside; fails for a file of no shard.
pub open spec fn stage_target_of(b: BaseView, stage: PathView, source: PathView) -> Result<
    PathView,
    ErrorView,
> {
    let outside = ErrorView::InvalidInput("VPK is outside the addon folders: "@ + path_text(source));
    match (path_parent(source), path_name(source)) {
        (Some(dir), Some(name)) => match shard_at(b, dir) {
            Some(n) => Ok(stage.push(staged_text(LocatorView { shard: n, filename: name }))),
            None => Err(outside),
        },
        _ => Err(outside),
    }
}

/// Where a VPK of a profile is set aside.
pub fn stage_target(base: &ProfileBase, stage: &TreePath, source: &TreePath) -> (r: Result<
    TreePath,
    Error,
>)
    ensures
        match r {
            Ok(p) => stage_target_of(base@, stage@, source@) == Ok::<PathView, ErrorView>(p@),
            Err(e) => stage_target_of(base@, stage@, source@) == Err::<PathView, ErrorView>(e@),
        },
{
    match source.parent() {
        Some(dir) => match source.file_name() {
            Some(name) => match base.shard_of_dir(&dir) {
                Some(shard) => {
                    return Ok(stage.child(StagedName::new(shard, name).encode().as_str()));
                },
                None => {},
            },
            None => {},
        },
        None => {},
    }
    let mut m: String = "VPK is outside the addon folders: ".to_owned();
    m.append(source.to_text().as_str());
    Err(Error::InvalidInput(m))
}

pub open spec fn claimed_text(stage: PathView) -> Seq<char> {
    "VPK staging directory already exists: "@ + path_text(stage)
}

/// Making a staging directory; fails where something stands already.
pub open spec fn claimed(d: DiskView, stage: PathView) -> Result<DiskView, ErrorView> {
    if exists_at(d, stage) {
        Err(ErrorView::ModInvalid(claimed_text(stage)))
    } else if !dirs_possible(d, stage) {
        Err(ErrorView::Io(cannot_text("create directory"@, stage)))
    } else {
        Ok(with_dirs(d, stage))
    }
}

/// Makes a staging directory.
pub fn claim(disk: &mut Disk, stage: &TreePath) -> (r: Result<(), Error>)
    ensures
        undoable(*old(disk), *final(disk)),
        match r {
            Ok(_) => claimed(old(disk)@, stage@) == Ok::<DiskView, ErrorView>(final(disk)@),
            Err(e) => claimed(old(disk)@, stage@) == Err::<DiskView, ErrorView>(e@) && final(disk)@
                == old(disk)@,
        },
{
    if disk.has(stage) {
        let mut m: String = "VPK staging directory already exists: ".to_owned();
        m.append(stage.to_text().as_str());
        return Err(Error::ModInvalid(m));
    }
    disk.create_dir_all(stage)
}

/// Setting aside the first `k` of a list of files.
pub open spec fn staging_plan(b: BaseView, stage: PathView, sources: Seq<PathView>, k: int) -> Result<
    Seq<StepView>,
    ErrorView,
>
    decreases k,
{
    if k <= 0 {
        Ok(Seq::empty())
    } else {
        match staging_plan(b, stage, sources, k - 1) {
            Err(e) => Err(e),
            Ok(steps) => match stage_target_of(b, stage, sources[k - 1]) {
                Err(e) => Err(e),
                Ok(p) => Ok(steps.push(StepView::Rename(sources[k - 1], p))),
            },
        }
    }
}

pub proof fn lemma_staging_plan_stops(
    b: BaseView,
    stage: PathView,
    sources: Seq<PathView>,
    k: int,
    n: int,
)
    requires
        0 <= k <= n,
        staging_plan(b, stage, sources, k) is Err,
    ensures
        staging_plan(b, stage, sources, n) == staging_plan(b, stage, sources, k),
    decreases n - k,
{
    if k < n {
        lemma_staging_plan_stops(b, stage, sources, k, n - 1);
    }
}

/// The plan that sets files aside.
pub fn plan_staging(base: &ProfileBase, stage: &TreePath, sources: &Vec<TreePath>) -> (r: Result<
    Vec<Step>,
    Error,
>)
    ensures
        ({
            let all = crate::vpk_manifest::path_views(sources@);
            match r {
                Ok(v) => staging_plan(base@, stage@, all, all.len() as int) == Ok::<
                    Seq<StepView>,
                    ErrorView,
                >(step_views(v@)),
                Err(e) => staging_plan(base@, stage@, all, all.len() as int) == Err::<
                    Seq<StepView>,
                    ErrorView,
                >(e@),
            }
        }),
{
    let ghost all = crate::vpk_manifest::path_views(sources@);
    let mut steps: Vec<Step> = Vec::new();
    let mut i: usize = 0;
    assert(step_views(steps@) =~= Seq::<StepView>::empty());
    while i < sources.len()
        invariant
            i <= sources@.len(),
            all == crate::vpk_manifest::path_views(sources@),
            staging_plan(base@, stage@, all, i as int) == Ok::<Seq<StepView>, ErrorView>(
                step_views(steps@),
            ),
        decreases sources@.len() - i,
    {
        assert(all[i as int] == sources@[i as int]@);
        match stage_target(base, stage, &sources[i]) {
            Ok(p) => {
                let s = Step::Rename(sources[i].duplicate(), p);
                proof {
                    lemma_step_views_push(steps@, s);
                }
                steps.push(s);
            },
            Err(e) => {
                assert(staging_plan(base@, stage@, all, i + 1) is Err);
                proof {
                    lemma_staging_plan_stops(base@, stage@, all, i + 1, all.len() as int);
                }
                return Err(e);
            },
        }
        i = i + 1;
    }
    Ok(steps)
}

/// An operation that has been carried out on a copy of the tree and awaits its
/// commit. Dropping it leaves the tree as it was.
pub struct PendingVpkOperation<T> {
    pub value: T,
    pub work: Disk,
    pub staging: Option<TreePath>,
}

/// The tree once the leftovers of an operation are cleared away.
pub open spec fn settled(d: DiskView, staging: Option<TreePath>) -> DiskView {
    match staging {
        Some(p) => if is_dir_at(d, p@) {
            without_tree(d, p@)
        } else {
            d
        },
        None => d,
    }
}

impl<T> PendingVpkOperation<T> {
    /// Makes the operation final.
    pub fn commit(self, disk: &mut Disk) -> (r: T)
        ensures
            r == self.value,
            final(disk)@ == settled(self.work@, self.staging),
            forall|a: Disk| #[trigger]
                decided(a, self.work) ==> transacted(a, *final(disk)),
    {
        let ghost done = self.work;
        let mut work = self.work;
        work.commit();
        let ghost committed = work;
        match &self.staging {
            Some(p) => {
                work.clear_away(p);
            },
            None => {},
        }
        let ghost cleared = work;
        work.settle();
        proof {
            assert forall|a: Disk| #[trigger] decided(a, done) implies transacted(a, work) by {
                lemma_transaction(a, done, committed, cleared, work);
            }
        }
        *disk = work;
        self.value
    }
}

} // verus!
