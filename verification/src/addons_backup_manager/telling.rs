//! What is told of a backup, and what deleting one leaves.
use super::{
    backup_deleted, backup_dir_of, backup_info, backup_path, backup_restored, folder_time,
    made_view, progress_of, strategy_named, RestoreStrategy,
};
use crate::backup_name::backup_time;
use crate::disk::{exists_at, is_dir_at, same_at, DiskView};
use crate::error::ErrorView;
use crate::path::{lemma_join_plain, path_parent, path_text, plain_name, PathView};
use crate::text::{contains_text, starts_with};
use crate::tree_copy::{roots_stats, tree_stats};
use vstd::prelude::*;

verus! {

/// A backup is told by its name, its place, the time in its name, or where that tells none the
/// time its directory was made, its size and the number of its VPKs.
pub proof fn law_backups_tell_what_they_hold(
    d: DiskView,
    dir: PathView,
    name: Seq<char>,
    made: u64,
    time: u64,
)
    ensures
        ({
            let b = backup_info(d, dir, name, made);
            &&& b.file_name == name
            &&& b.file_path == path_text(dir.push(name))
            &&& backup_time(name) == Some(time) ==> b.created_at == time
            &&& backup_time(name) is None ==> b.created_at == made
            &&& b.file_size == tree_stats(d, dir.push(name)).bytes
            &&& b.addons_count == tree_stats(d, dir.push(name)).vpks
        }),
{
}

/// A backup just made is told by its name, its place and the time it was asked for, with the
/// size and the VPKs of the addons it was made of.
pub proof fn law_new_backups_tell_what_they_hold(
    d: DiskView,
    citadel: PathView,
    root: Seq<char>,
    dir: PathView,
    name: Seq<char>,
    time: u64,
)
    requires
        plain_name(name),
        path_parent(citadel.push(root)) == Some(citadel),
    ensures
        ({
            let b = made_view(d, citadel.push(root), dir, name, time);
            &&& b.file_name == name
            &&& b.file_path == path_text(dir.push(name))
            &&& b.created_at == time
            &&& b.file_size == roots_stats(d, citadel).bytes
            &&& b.addons_count == roots_stats(d, citadel).vpks
        }),
{
    lemma_join_plain(dir, name);
}

/// The time of a directory is that of the first entry with its name, and zero without one.
pub proof fn law_the_first_time_of_a_folder_counts(
    times: Seq<(String, u64)>,
    name: Seq<char>,
    i: int,
)
    ensures
        0 <= i < times.len() && times[i].0@ == name && (forall|j: int|
            0 <= j < i ==> (#[trigger] times[j]).0@ != name) ==> folder_time(times, name)
            == times[i].1,
        (forall|j: int| 0 <= j < times.len() ==> (#[trigger] times[j]).0@ != name) ==> folder_time(
            times,
            name,
        ) == 0,
    decreases times.len(),
{
    if times.len() > 0 {
        let rest = times.drop_first();
        law_the_first_time_of_a_folder_counts(rest, name, i - 1);
        if 0 < i < times.len() && times[i].0@ == name && (forall|j: int|
            0 <= j < i ==> (#[trigger] times[j]).0@ != name) {
            assert(rest[i - 1] == times[i]);
            assert forall|j: int| 0 <= j < i - 1 implies (#[trigger] rest[j]).0@ != name by {
                assert(rest[j] == times[j + 1]);
            }
            assert(times[0].0@ != name);
        }
        if forall|j: int| 0 <= j < times.len() ==> (#[trigger] times[j]).0@ != name {
            assert forall|j: int| 0 <= j < rest.len() implies (#[trigger] rest[j]).0@ != name by {
                assert(rest[j] == times[j + 1]);
            }
            assert(times[0].0@ != name);
        }
    }
}

/// Deleting a backup takes its directory with everything in it, and nothing else. A backup that
/// is not there is not deleted.
pub proof fn law_deleted_backups_are_gone(d: DiskView, game: PathView, name: Seq<char>)
    requires
        starts_with(name, "addons-backup-"@),
        !contains_text(name, ".."@),
        !contains_text(name, "/"@),
        !contains_text(name, "\\"@),
    ensures
        ({
            let place = backup_dir_of(game).push(name);
            let r = backup_deleted(d, Some(game), name);
            &&& r is Ok <==> is_dir_at(d, place)
            &&& r is Ok ==> {
                &&& forall|q: PathView|
                    place.is_prefix_of(q) ==> !#[trigger] exists_at(r->Ok_0, q)
                &&& forall|q: PathView|
                    !place.is_prefix_of(q) ==> #[trigger] same_at(d, r->Ok_0, q)
            }
            &&& !exists_at(d, place) ==> r == Err::<DiskView, ErrorView>(ErrorView::BackupNotFound)
        }),
{
}

/// A name that is not that of a backup, or that is a path, is refused before anything is
/// deleted or restored.
pub proof fn law_only_backups_are_touched(
    d: DiskView,
    game: Option<PathView>,
    name: Seq<char>,
    strategy: RestoreStrategy,
)
    requires
        !starts_with(name, "addons-backup-"@) || contains_text(name, ".."@) || contains_text(
            name,
            "/"@,
        ) || contains_text(name, "\\"@),
    ensures
        backup_path(game, name) is Err,
        backup_path(game, name)->Err_0 is InvalidInput,
        backup_deleted(d, game, name) is Err,
        backup_deleted(d, game, name)->Err_0 is InvalidInput,
        backup_restored(d, game, name, strategy) is Err,
        backup_restored(d, game, name, strategy)->Err_0 is InvalidInput,
{
}

/// The present addons are replaced or merged just as the name of the strategy says.
pub proof fn law_strategies_go_by_their_names(lower: Seq<char>)
    ensures
        strategy_named(lower) == Some(RestoreStrategy::Replace) <==> lower == "replace"@,
        strategy_named(lower) == Some(RestoreStrategy::Merge) <==> lower == "merge"@,
        strategy_named(lower) is None <==> lower != "replace"@ && lower != "merge"@,
{
    reveal_strlit("replace");
    reveal_strlit("merge");
    assert("replace"@.len() == 7);
    assert("merge"@.len() == 5);
}

/// Copying the roots leads from 20 to 90 percent, and never back.
pub proof fn law_copying_makes_progress(done: nat, total: nat)
    requires
        done < total,
    ensures
        progress_of(0, total) == 20,
        progress_of(total, total) == 90,
        progress_of(done, total) <= progress_of(done + 1, total) <= 90,
{
    assert(0nat * 70 / total == 0) by (nonlinear_arith)
        requires
            total > 0,
    ;
    assert(total * 70 / total == 70) by (nonlinear_arith)
        requires
            total > 0,
    ;
    assert(done * 70 / total <= (done + 1) * 70 / total) by (nonlinear_arith)
        requires
            total > 0,
    ;
    assert((done + 1) * 70 / total <= 70) by (nonlinear_arith)
        requires
            done + 1 <= total,
            total > 0,
    ;
}

} // verus!
