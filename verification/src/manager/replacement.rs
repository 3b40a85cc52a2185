//! What replacing the files of a mod comes to.
use super::{profile_base, ManagerView, RepoView};
use super::lifecycle::{mod_replaced, path_names};
use super::recording::lemma_base_of_profile;
use super::requested_order::lemma_still_on_record;
use crate::disk::{
    is_dir_at, is_file_at, lemma_filter_all, lemma_filter_members, lemma_names_in,
    lemma_rooted_at, names_in, rooted, same_at, DiskView, NodeView,
};
use crate::manifest_store::{
    lemma_saved, loaded, manifest_path, manifest_temp_path, mods_on_record, saved,
};
use crate::manifest_store::rereading::{
    law_reading_overwrites_nothing, lemma_manifest_outside, outside_stages,
};
use crate::path::{path_name, PathView, TreePath};
use crate::shard::{shard_dir_of, BaseView};
use crate::table::lemma_finite_has_order;
use crate::vpk_manager::copying::replaced_vpks;
use crate::vpk_manager::operations::{prefixed_found, prefixed_in, prefixed_names};
use crate::vpk_manager::replacing::{
    enabled_places, law_disabled_files_are_replaced_one_for_one,
    law_enabled_files_are_replaced_one_for_one, one_for_one,
};
use crate::vpk_manager::setting_aside::{lemma_shard_dir, plain_tree};
use crate::vpk_manifest::{marked_disabled, marked_enabled, EntryView};
use vstd::prelude::*;

verus! {

/// The enabled files of a mod: those on record; else those that the caller gives; else
/// those that the manager knows.
pub open spec fn are_enabled_files(
    before: Map<Seq<char>, EntryView>,
    repo: RepoView,
    id: Seq<char>,
    given: Seq<Seq<char>>,
    files: Seq<Seq<char>>,
) -> bool {
    let on_record = before.contains_key(id) && before[id].current.len() > 0;
    &&& on_record ==> files == before[id].current
    &&& !on_record && given.len() > 0 ==> files == given
    &&& !on_record && given.len() == 0 && repo.contains_key(id) ==> files == repo[id].installed
    &&& !on_record && given.len() == 0 && !repo.contains_key(id) ==> files.len() == 0
}

/// Where the enabled files of a mod stand, as the manifest has it.
pub open spec fn enabled_dir(b: BaseView, before: Map<Seq<char>, EntryView>, id: Seq<char>) -> PathView {
    shard_dir_of(
        b,
        if before.contains_key(id) {
            before[id].shard
        } else {
            1
        },
    )
}

/// Neither the manifest, nor beside it, nor among what is set aside.
pub open spec fn apart(p: PathView, q: PathView) -> bool {
    q != manifest_path(p) && outside_stages(p, q) && !manifest_temp_path(p).is_prefix_of(q)
}

/// The names of files, each by itself.
pub open spec fn names_of_sources(sources: Seq<PathView>, names: Seq<Seq<char>>) -> bool {
    &&& names.len() == sources.len()
    &&& forall|i: int| 0 <= i < sources.len() ==> #[trigger] names[i] == sources[i].last()
}

proof fn lemma_path_names(sources: Seq<PathView>)
    requires
        forall|i: int| 0 <= i < sources.len() ==> path_name(#[trigger] sources[i]) is Some,
    ensures
        names_of_sources(sources, path_names(sources)),
{
    lemma_filter_all(sources, |p: PathView| path_name(p) is Some);
}

/// Reading the manifest again, once files apart from it were written over, gives what was
/// recorded, and leaves everything apart from it.
proof fn lemma_read_again(d: DiskView, p: PathView, d2: DiskView)
    requires
        rooted(d),
        d.dom().finite(),
        loaded(d, p).1 is Ok,
        rooted(d2),
        d2.dom().finite(),
        same_at(loaded(d, p).0, d2, manifest_path(p)),
        loaded(d2, p).1 is Ok,
    ensures
        ({
            let before = loaded(d, p).1->Ok_0.mods;
            before == Map::<Seq<char>, EntryView>::empty() || loaded(d2, p).1->Ok_0.mods == before
        }),
        forall|q: PathView|
            d2.contains_key(q) && apart(p, q) ==> #[trigger] same_at(d2, loaded(d2, p).0, q),
        rooted(loaded(d2, p).0),
        loaded(d2, p).0.dom().finite(),
{
    lemma_still_on_record(d, p);
    law_reading_overwrites_nothing(d2, p);
    lemma_manifest_outside(p);
    let main = manifest_path(p);
    let before = loaded(d, p).1->Ok_0.mods;
    if before != Map::<Seq<char>, EntryView>::empty() {
        assert(d2.contains_key(main));
        assert(same_at(d2, loaded(d2, p).0, main));
    }
}

/// Replacing the files of an enabled mod leaves at each place of an enabled file that was
/// there the contents of its own source, and nothing else changes apart from the manifest.
/// The mod is recorded as enabled under the same files, with the names of the sources, in
/// order; the other mods are recorded as before.
pub proof fn law_replaced_files_hold_their_sources(
    d: DiskView,
    m: ManagerView,
    id: Seq<char>,
    sources: Seq<PathView>,
    given: Seq<Seq<char>>,
    folder: Option<Seq<char>>,
    files: Seq<Seq<char>>,
)
    requires
        rooted(d),
        d.dom().finite(),
        mod_replaced(d, m, id, sources, given, folder).1 is Ok,
        files.len() > 0,
        ({
            let b = profile_base(m.game_path, folder)->Ok_0;
            let before = loaded(d, b.path).1->Ok_0.mods;
            let targets = enabled_places(enabled_dir(b, before, id), files);
            &&& are_enabled_files(before, m.repo, id, given, files)
            &&& sources.len() == files.len() ==> one_for_one(sources, targets)
            &&& forall|i: int| 0 <= i < targets.len() ==> apart(b.path, #[trigger] targets[i])
            &&& forall|i: int| 0 <= i < sources.len() ==> path_name(#[trigger] sources[i]) is Some
        }),
    ensures
        ({
            let b = profile_base(m.game_path, folder)->Ok_0;
            let p = b.path;
            let (d1, l) = loaded(d, p);
            let before = l->Ok_0.mods;
            let dir = enabled_dir(b, before, id);
            let targets = enabled_places(dir, files);
            let e = mod_replaced(d, m, id, sources, given, folder).0;
            let after = mods_on_record(e, p);
            &&& sources.len() == files.len()
            &&& forall|i: int|
                0 <= i < targets.len() && d1.contains_key(#[trigger] targets[i])
                    ==> e.contains_key(targets[i]) && e[targets[i]].body == d1[sources[i]].body
            &&& forall|q: PathView|
                d1.contains_key(q) && apart(p, q) && !targets.contains(q) ==> #[trigger] same_at(
                    d1,
                    e,
                    q,
                )
            &&& after.contains_key(id)
            &&& after[id].enabled
            &&& after[id].current == files
            &&& shard_dir_of(b, after[id].shard) == dir
            &&& names_of_sources(sources, after[id].original)
            &&& before.contains_key(id) ==> after[id].order == before[id].order
            &&& forall|x: Seq<char>| #[trigger]
                before.contains_key(x) && x != id ==> after.contains_key(x) && after[x] == before[x]
        }),
{
    let b = profile_base(m.game_path, folder)->Ok_0;
    let p = b.path;
    let (d1, l) = loaded(d, p);
    let before = l->Ok_0.mods;
    let dir = enabled_dir(b, before, id);
    let targets = enabled_places(dir, files);
    law_reading_overwrites_nothing(d, p);
    law_enabled_files_are_replaced_one_for_one(d1, p, dir, id, sources, files);
    let d2 = replaced_vpks(d1, p, dir, id, sources, files).0;
    let main = manifest_path(p);
    let temp = manifest_temp_path(p);
    assert(!targets.contains(main)) by {
        if targets.contains(main) {
            let i = choose|i: int| 0 <= i < targets.len() && targets[i] == main;
            assert(apart(p, targets[i]));
        }
    }
    assert(same_at(d1, d2, main));
    lemma_read_again(d, p, d2);
    lemma_path_names(sources);
    let (d3, l2) = loaded(d2, p);
    let m2 = l2->Ok_0;
    let e = mod_replaced(d, m, id, sources, given, folder).0;
    let shard = if before.contains_key(id) {
        before[id].shard
    } else {
        1
    };
    let m3 = marked_enabled(m2, id, files, path_names(sources), None, shard);
    lemma_saved(d3, p, m3);
    assert(e == saved(d3, p, m3).0);
    assert(temp.is_prefix_of(temp)) by {
        assert(temp =~= temp.take(temp.len() as int));
    }
    assert forall|i: int| 0 <= i < targets.len() && d1.contains_key(#[trigger] targets[i]) implies e.contains_key(
        targets[i],
    ) && e[targets[i]].body == d1[sources[i]].body by {
        assert(apart(p, targets[i]));
        assert(same_at(d2, d3, targets[i]));
    }
    assert forall|q: PathView|
        d1.contains_key(q) && apart(p, q) && !targets.contains(q) implies #[trigger] same_at(
        d1,
        e,
        q,
    ) by {
        assert(same_at(d1, d2, q));
        assert(same_at(d2, d3, q));
    }
}

/// Replacing the files of a mod that is not enabled leaves at the place of each disabled
/// file the contents of its own source, by the order of their names. The mod is recorded as
/// disabled, with the files that stand disabled and the names of the sources; the other
/// mods are recorded as before.
pub proof fn law_replaced_disabled_files_hold_their_sources(
    d: DiskView,
    m: ManagerView,
    id: Seq<char>,
    sources: Seq<PathView>,
    given: Seq<Seq<char>>,
    folder: Option<Seq<char>>,
)
    requires
        rooted(d),
        d.dom().finite(),
        mod_replaced(d, m, id, sources, given, folder).1 is Ok,
        ({
            let p = profile_base(m.game_path, folder)->Ok_0.path;
            let (d1, l) = loaded(d, p);
            let targets = prefixed_names(d1, p, id).map_values(|n: Seq<char>| p.push(n));
            &&& plain_tree(d1)
            &&& are_enabled_files(l->Ok_0.mods, m.repo, id, given, Seq::empty())
            &&& sources.len() == targets.len() ==> one_for_one(sources, targets)
            &&& forall|i: int| 0 <= i < targets.len() ==> apart(p, #[trigger] targets[i])
            &&& forall|i: int| 0 <= i < sources.len() ==> path_name(#[trigger] sources[i]) is Some
        }),
    ensures
        ({
            let p = profile_base(m.game_path, folder)->Ok_0.path;
            let (d1, l) = loaded(d, p);
            let before = l->Ok_0.mods;
            let targets = prefixed_names(d1, p, id).map_values(|n: Seq<char>| p.push(n));
            let e = mod_replaced(d, m, id, sources, given, folder).0;
            let after = mods_on_record(e, p);
            &&& sources.len() == targets.len()
            &&& forall|i: int|
                0 <= i < targets.len() ==> e.contains_key(#[trigger] targets[i])
                    && e[targets[i]].body == d1[sources[i]].body
            &&& forall|q: PathView|
                d1.contains_key(q) && apart(p, q) && !targets.contains(q) ==> #[trigger] same_at(
                    d1,
                    e,
                    q,
                )
            &&& after.contains_key(id)
            &&& !after[id].enabled
            &&& forall|i: int|
                0 <= i < targets.len() ==> after[id].disabled.contains(
                    (#[trigger] targets[i]).last(),
                )
            &&& names_of_sources(sources, after[id].original)
            &&& before.contains_key(id) ==> after[id].order == before[id].order
            &&& forall|x: Seq<char>| #[trigger]
                before.contains_key(x) && x != id ==> after.contains_key(x) && after[x] == before[x]
        }),
{
    let b = profile_base(m.game_path, folder)->Ok_0;
    let p = b.path;
    let (d1, l) = loaded(d, p);
    let before = l->Ok_0.mods;
    let dir = enabled_dir(b, before, id);
    let found = prefixed_names(d1, p, id);
    let targets = found.map_values(|n: Seq<char>| p.push(n));
    let none = Seq::<Seq<char>>::empty();
    law_reading_overwrites_nothing(d, p);
    assert(super::lifecycle::files_to_replace(l->Ok_0, m.repo, id, given) =~= none);
    law_disabled_files_are_replaced_one_for_one(d1, p, dir, id, sources);
    let d2 = replaced_vpks(d1, p, dir, id, sources, none).0;
    let main = manifest_path(p);
    let temp = manifest_temp_path(p);
    lemma_finite_has_order::<TreePath, NodeView>(d1);
    lemma_names_in(d1, p);
    lemma_filter_members(names_in(d1, p), |n: Seq<char>| prefixed_in(d1, p, id, n));
    assert forall|i: int| 0 <= i < targets.len() implies is_file_at(d1, #[trigger] targets[i])
        && prefixed_in(d1, p, id, found[i]) by {
        assert(found.contains(found[i]));
    }
    assert(!targets.contains(main)) by {
        if targets.contains(main) {
            let i = choose|i: int| 0 <= i < targets.len() && targets[i] == main;
            assert(apart(p, targets[i]));
        }
    }
    assert(same_at(d1, d2, main));
    lemma_read_again(d, p, d2);
    lemma_path_names(sources);
    let (d3, l2) = loaded(d2, p);
    let m2 = l2->Ok_0;
    let e = mod_replaced(d, m, id, sources, given, folder).0;
    let again = prefixed_found(d3, p, id)->Ok_0;
    let m3 = marked_disabled(m2, id, again, path_names(sources));
    lemma_saved(d3, p, m3);
    assert(e == saved(d3, p, m3).0);
    assert(temp.is_prefix_of(temp)) by {
        assert(temp =~= temp.take(temp.len() as int));
    }
    lemma_finite_has_order::<TreePath, NodeView>(d3);
    lemma_names_in(d3, p);
    lemma_filter_members(names_in(d3, p), |n: Seq<char>| prefixed_in(d3, p, id, n));
    assert forall|i: int| 0 <= i < targets.len() implies e.contains_key(#[trigger] targets[i])
        && e[targets[i]].body == d1[sources[i]].body && again.contains(targets[i].last()) by {
        assert(is_file_at(d1, targets[i]));
        assert(apart(p, targets[i]));
        assert(same_at(d2, d3, targets[i]));
        assert(targets[i].last() == found[i]);
        assert(is_file_at(d3, p.push(found[i])));
        assert(prefixed_in(d3, p, id, found[i]));
        lemma_rooted_at(d3, targets[i]);
        lemma_base_of_profile(m, folder, b);
        lemma_shard_dir(b, 1);
        assert(targets[i].drop_last() =~= p);
        assert(is_dir_at(d3, p));
        assert(names_in(d3, p).contains(found[i]));
    }
    assert forall|q: PathView|
        d1.contains_key(q) && apart(p, q) && !targets.contains(q) implies #[trigger] same_at(
        d1,
        e,
        q,
    ) by {
        assert(same_at(d1, d2, q));
        assert(same_at(d2, d3, q));
    }
}

} // verus!
