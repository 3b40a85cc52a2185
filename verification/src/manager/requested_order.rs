//! What a request to reorder mods comes to.
use super::{profile_base, ManagerView, ModView, RepoView};
use super::hydration::{known_by_id, lemma_same_mods};
use super::layout::lemma_recorded;
use super::ordered::lemma_plain_base;
use super::ordering::{
    entry_ordered, mods_ordered, mods_reordered, named_files, order_keys, order_views,
    remote_keys, remote_ordered, remote_reordered, remote_views, repo_ordered, OrderState,
    OrderView, RemoteView,
};
use super::recording::lemma_base_of_profile;
use super::reorder::{
    entry_group, placed_entry, placements_recorded, reconciled, reorder_committed, repo_placed,
    resolved_vpks,
};
use super::resolving::{all_plain, all_there, law_files_that_are_there_count};
use crate::disk::{exists_at, lemma_filter_members, rooted, without_tree, DiskView};
use crate::manifest_store::{lemma_saved, loaded, manifest_path, mods_on_record, saved};
use crate::manifest_store::rereading::{law_reading_overwrites_nothing, lemma_manifest_outside};
use crate::order::{law_every_list_can_be_sorted, place_before, sorted_by, sorted_places};
use crate::path::PathView;
use crate::shard::{base_of, shard_dir_of, BaseView, REORDER_STAGING_DIR};
use crate::vpk_manager::GroupView;
use crate::vpk_manager::naming::pak_number;
use crate::vpk_manager::operations::file_names;
use crate::vpk_manager::packing::{lemma_placed_in_order, loads_before};
use crate::vpk_manager::reorder::reorder_staged;
use crate::vpk_manifest::{entry_or_blank, is_active, EntryView, ManifestView, MANIFEST_FILENAME};
use vstd::prelude::*;

verus! {

/// The files of one mod are loaded before those of another.
pub open spec fn files_load_before(a: EntryView, b: EntryView) -> bool {
    forall|u: int, v: int|
        0 <= u < a.current.len() && 0 <= v < b.current.len() ==> loads_before(
            (a.shard, pak_number(#[trigger] a.current[u])->0),
            (b.shard, pak_number(#[trigger] b.current[v])->0),
        )
}

/// No mod is named twice.
pub open spec fn each_once(asked: Seq<OrderView>) -> bool {
    forall|i: int, j: int|
        0 <= i < j < asked.len() ==> (#[trigger] asked[i]).0 != (#[trigger] asked[j]).0
}

/// A mod is named in a request.
pub open spec fn is_asked(asked: Seq<OrderView>, id: Seq<char>) -> bool {
    exists|i: int| 0 <= i < asked.len() && (#[trigger] asked[i]).0 == id
}

/// What is recorded after a request that gives each of the mods in `asked` its order,
/// against what was recorded `before`: the orders asked for, of the mods on record, or
/// where `anew` of every mod; and the mods that were not asked for as they were. The files
/// of a mod with a lower order are loaded before those of one with a higher.
pub open spec fn orders_recorded(
    before: Map<Seq<char>, EntryView>,
    after: Map<Seq<char>, EntryView>,
    asked: Seq<OrderView>,
    anew: bool,
) -> bool {
    &&& forall|id: Seq<char>| #[trigger] before.contains_key(id) ==> after.contains_key(id)
    &&& forall|id: Seq<char>| #[trigger]
        before.contains_key(id) && !is_asked(asked, id) ==> after[id] == before[id]
    &&& forall|i: int|
        0 <= i < asked.len() && (anew || before.contains_key((#[trigger] asked[i]).0)) ==> {
            &&& after.contains_key(asked[i].0)
            &&& after[asked[i].0].order == Some(asked[i].1)
            &&& before.contains_key(asked[i].0) ==> after[asked[i].0].original
                == before[asked[i].0].original
        }
    &&& forall|i: int, j: int|
        0 <= i < asked.len() && 0 <= j < asked.len() && (#[trigger] asked[i]).1 < (
        #[trigger] asked[j]).1 && (anew || before.contains_key(asked[i].0)) && (anew
            || before.contains_key(asked[j].0)) && after[asked[i].0].enabled
            && after[asked[j].0].enabled ==> files_load_before(
            after[asked[i].0],
            after[asked[j].0],
        )
}

/// The mod at `j` is one that the request reaches: any, or only those on record.
spec fn reached(m: ManifestView, asked: Seq<OrderView>, only: bool, j: int) -> bool {
    !only || m.mods.contains_key(asked[j].0)
}

/// The place of a mod in a request.
spec fn place_of(asked: Seq<OrderView>, id: Seq<char>) -> int {
    choose|j: int| 0 <= j < asked.len() && (#[trigger] asked[j]).0 == id
}

proof fn lemma_place_of(asked: Seq<OrderView>, j: int)
    requires
        each_once(asked),
        0 <= j < asked.len(),
    ensures
        place_of(asked, asked[j].0) == j,
{
    let i = place_of(asked, asked[j].0);
    assert(0 <= i < asked.len() && asked[i].0 == asked[j].0);
}

/// What is recorded after the first `k` mods of a request.
spec fn entries_stand(
    s: OrderState,
    m: ManifestView,
    asked: Seq<OrderView>,
    only: bool,
    k: int,
) -> bool {
    &&& forall|id: Seq<char>| #[trigger] m.mods.contains_key(id) ==> s.manifest.mods.contains_key(id)
    &&& forall|id: Seq<char>| #[trigger]
        s.manifest.mods.contains_key(id) ==> m.mods.contains_key(id) || exists|j: int|
            0 <= j < k && (#[trigger] asked[j]).0 == id
    &&& forall|id: Seq<char>|
        m.mods.contains_key(id) && (forall|j: int|
            0 <= j < k ==> (#[trigger] asked[j]).0 != id) ==> #[trigger] s.manifest.mods[id]
            == m.mods[id]
    &&& forall|j: int|
        0 <= j < k && reached(m, asked, only, j) ==> {
            let e = s.manifest.mods[(#[trigger] asked[j]).0];
            &&& s.manifest.mods.contains_key(asked[j].0)
            &&& e.order == Some(asked[j].1)
            &&& e.original == entry_or_blank(m, asked[j].0).original
            &&& e.enabled ==> e.current.len() > 0
        }
    &&& !s.changed ==> s.manifest == m
}

/// The mods that are to be moved after the first `k` mods of a request.
spec fn groups_stand(
    s: OrderState,
    m: ManifestView,
    asked: Seq<OrderView>,
    only: bool,
    k: int,
) -> bool {
    &&& forall|j: int|
        0 <= j < k && reached(m, asked, only, j) && is_active(
            s.manifest.mods[(#[trigger] asked[j]).0],
        ) ==> s.groups.contains(entry_group(asked[j].0, s.manifest.mods[asked[j].0]))
    &&& forall|a: int|
        0 <= a < s.groups.len() ==> {
            let g = #[trigger] s.groups[a];
            let j = place_of(asked, g.mod_id);
            &&& 0 <= j < k
            &&& asked[j].0 == g.mod_id
            &&& reached(m, asked, only, j)
            &&& g == entry_group(g.mod_id, s.manifest.mods[g.mod_id])
            &&& is_active(s.manifest.mods[g.mod_id])
        }
    &&& forall|a: int, c: int|
        0 <= a < c < s.groups.len() ==> place_of(asked, (#[trigger] s.groups[a]).mod_id)
            < place_of(asked, (#[trigger] s.groups[c]).mod_id)
}

spec fn stands(s: OrderState, m: ManifestView, asked: Seq<OrderView>, only: bool, k: int) -> bool {
    entries_stand(s, m, asked, only, k) && groups_stand(s, m, asked, only, k)
}

proof fn lemma_entries_step(
    s: OrderState,
    d: DiskView,
    b: BaseView,
    m: ManifestView,
    asked: Seq<OrderView>,
    fallback: Seq<Seq<char>>,
    only: bool,
    k: int,
)
    requires
        0 < k <= asked.len(),
        each_once(asked),
        entries_stand(s, m, asked, only, k - 1),
        reached(m, asked, only, k - 1),
    ensures
        entries_stand(
            entry_ordered(s, d, b, asked[k - 1].0, fallback, asked[k - 1].1),
            m,
            asked,
            only,
            k,
        ),
{
    let id = asked[k - 1].0;
    let n = asked[k - 1].1;
    let t = entry_ordered(s, d, b, id, fallback, n);
    let e = entry_or_blank(s.manifest, id);
    let e2 = reconciled(d, b, EntryView { order: Some(n), ..e }, fallback);
    assert(e == entry_or_blank(m, id)) by {
        if m.mods.contains_key(id) {
            assert(s.manifest.mods[id] == m.mods[id]);
        }
    }
    assert(t.manifest.mods[id] == e2);
    assert forall|x: Seq<char>| #[trigger] t.manifest.mods.contains_key(x) implies
        m.mods.contains_key(x) || exists|j: int| 0 <= j < k && (#[trigger] asked[j]).0 == x by {
        if x == id {
            assert(asked[k - 1].0 == x);
        } else if !m.mods.contains_key(x) {
            assert(s.manifest.mods.contains_key(x));
            let j = choose|j: int| 0 <= j < k - 1 && (#[trigger] asked[j]).0 == x;
            assert(0 <= j < k && asked[j].0 == x);
        }
    }
    assert forall|x: Seq<char>|
        m.mods.contains_key(x) && (forall|j: int|
            0 <= j < k ==> (#[trigger] asked[j]).0 != x) implies #[trigger] t.manifest.mods[x]
        == m.mods[x] by {
        assert(asked[k - 1].0 != x);
        assert(s.manifest.mods[x] == m.mods[x]);
    }
    assert forall|j: int| 0 <= j < k && reached(m, asked, only, j) implies {
        let f = t.manifest.mods[(#[trigger] asked[j]).0];
        &&& t.manifest.mods.contains_key(asked[j].0)
        &&& f.order == Some(asked[j].1)
        &&& f.original == entry_or_blank(m, asked[j].0).original
        &&& f.enabled ==> f.current.len() > 0
    } by {
        if j < k - 1 {
            assert(asked[j].0 != asked[k - 1].0);
        }
    }
    if !t.changed {
        assert(m.mods.contains_key(id));
        assert(t.manifest.mods =~= m.mods);
    }
}

proof fn lemma_groups_step(
    s: OrderState,
    d: DiskView,
    b: BaseView,
    m: ManifestView,
    asked: Seq<OrderView>,
    fallback: Seq<Seq<char>>,
    only: bool,
    k: int,
)
    requires
        0 < k <= asked.len(),
        each_once(asked),
        groups_stand(s, m, asked, only, k - 1),
        reached(m, asked, only, k - 1),
    ensures
        groups_stand(
            entry_ordered(s, d, b, asked[k - 1].0, fallback, asked[k - 1].1),
            m,
            asked,
            only,
            k,
        ),
{
    let id = asked[k - 1].0;
    let t = entry_ordered(s, d, b, id, fallback, asked[k - 1].1);
    let e2 = t.manifest.mods[id];
    lemma_place_of(asked, k - 1);
    assert forall|a: int| 0 <= a < t.groups.len() implies {
        let g = #[trigger] t.groups[a];
        let j = place_of(asked, g.mod_id);
        &&& 0 <= j < k
        &&& asked[j].0 == g.mod_id
        &&& reached(m, asked, only, j)
        &&& g == entry_group(g.mod_id, t.manifest.mods[g.mod_id])
        &&& is_active(t.manifest.mods[g.mod_id])
    } by {
        if a < s.groups.len() {
            let g = s.groups[a];
            assert(t.groups[a] == g);
            assert(asked[place_of(asked, g.mod_id)].0 != asked[k - 1].0);
        }
    }
    assert forall|j: int|
        0 <= j < k && reached(m, asked, only, j) && is_active(
            t.manifest.mods[(#[trigger] asked[j]).0],
        ) implies t.groups.contains(entry_group(asked[j].0, t.manifest.mods[asked[j].0])) by {
        if j < k - 1 {
            assert(asked[j].0 != asked[k - 1].0);
            let g = entry_group(asked[j].0, s.manifest.mods[asked[j].0]);
            let a = choose|a: int| 0 <= a < s.groups.len() && s.groups[a] == g;
            assert(t.groups[a] == g);
        } else {
            assert(t.groups.last() == entry_group(id, e2));
        }
    }
    assert forall|a: int, c: int| 0 <= a < c < t.groups.len() implies place_of(
        asked,
        (#[trigger] t.groups[a]).mod_id,
    ) < place_of(asked, (#[trigger] t.groups[c]).mod_id) by {
        assert(t.groups[a] == s.groups[a]);
        if c < s.groups.len() {
            assert(t.groups[c] == s.groups[c]);
        }
    }
}

proof fn lemma_skip(s: OrderState, m: ManifestView, asked: Seq<OrderView>, k: int)
    requires
        0 < k <= asked.len(),
        each_once(asked),
        stands(s, m, asked, true, k - 1),
        !reached(m, asked, true, k - 1),
    ensures
        stands(s, m, asked, true, k),
{
    assert forall|x: Seq<char>| #[trigger] s.manifest.mods.contains_key(x) implies
        m.mods.contains_key(x) || exists|j: int| 0 <= j < k && (#[trigger] asked[j]).0 == x by {
        if !m.mods.contains_key(x) {
            let j = choose|j: int| 0 <= j < k - 1 && (#[trigger] asked[j]).0 == x;
            assert(0 <= j < k && asked[j].0 == x);
        }
    }
}

proof fn lemma_begun(m: ManifestView, asked: Seq<OrderView>, only: bool)
    ensures
        stands(
            OrderState { manifest: m, groups: Seq::empty(), changed: false },
            m,
            asked,
            only,
            0,
        ),
{
}

proof fn lemma_mods_ordered(d: DiskView, b: BaseView, m: ManifestView, asked: Seq<OrderView>, k: int)
    requires
        0 <= k <= asked.len(),
        each_once(asked),
    ensures
        stands(mods_ordered(d, b, m, asked, k), m, asked, true, k),
    decreases k,
{
    lemma_begun(m, asked, true);
    if k > 0 {
        lemma_mods_ordered(d, b, m, asked, k - 1);
        let s = mods_ordered(d, b, m, asked, k - 1);
        let id = asked[k - 1].0;
        if m.mods.contains_key(id) {
            lemma_entries_step(s, d, b, m, asked, Seq::empty(), true, k);
            lemma_groups_step(s, d, b, m, asked, Seq::empty(), true, k);
        } else {
            lemma_skip(s, m, asked, k);
            if s.manifest.mods.contains_key(id) {
                let j = choose|j: int| 0 <= j < k - 1 && (#[trigger] asked[j]).0 == id;
                assert(asked[j].0 != asked[k - 1].0);
            }
        }
    }
}

/// The orders that a request by remote id asks for.
pub open spec fn remote_orders(list: Seq<RemoteView>) -> Seq<OrderView> {
    list.map_values(|x: RemoteView| (x.0, x.2))
}

proof fn lemma_remote_ordered(
    d: DiskView,
    b: BaseView,
    m: ManifestView,
    list: Seq<RemoteView>,
    k: int,
)
    requires
        0 <= k <= list.len(),
        each_once(remote_orders(list)),
    ensures
        stands(remote_ordered(d, b, m, list, k), m, remote_orders(list), false, k),
    decreases k,
{
    let asked = remote_orders(list);
    lemma_begun(m, asked, false);
    if k > 0 {
        lemma_remote_ordered(d, b, m, list, k - 1);
        let x = list[k - 1];
        let s = remote_ordered(d, b, m, list, k - 1);
        lemma_entries_step(s, d, b, m, asked, file_names(x.1), false, k);
        lemma_groups_step(s, d, b, m, asked, file_names(x.1), false, k);
    }
}

proof fn lemma_not_placed(m: ManifestView, groups: Seq<GroupView>, id: Seq<char>, k: int)
    requires
        0 <= k <= groups.len(),
        forall|a: int| 0 <= a < groups.len() ==> (#[trigger] groups[a]).mod_id != id,
    ensures
        placements_recorded(m, groups, k).mods[id] == m.mods[id],
    decreases k,
{
    if k > 0 {
        lemma_not_placed(m, groups, id, k - 1);
        assert(groups[k - 1].mod_id != id);
    }
}

/// A manifest that is written stands in its place, also once the directory of a reordering
/// is gone.
proof fn lemma_written(d: DiskView, p: PathView, m: ManifestView)
    requires
        saved(d, p, m).1 is Ok,
    ensures
        mods_on_record(saved(d, p, m).0, p) == m.mods,
        mods_on_record(without_tree(saved(d, p, m).0, p.push(REORDER_STAGING_DIR@)), p) == m.mods,
{
    lemma_saved(d, p, m);
    let stage = p.push(REORDER_STAGING_DIR@);
    let main = manifest_path(p);
    assert(!stage.is_prefix_of(main)) by {
        reveal_strlit(".dmm.json");
        reveal_strlit(".dmm-reorder");
        assert(stage.last() == REORDER_STAGING_DIR@);
        assert(main.last() == MANIFEST_FILENAME@);
        assert(REORDER_STAGING_DIR@.len() == 12);
        assert(MANIFEST_FILENAME@.len() == 9);
        if stage.is_prefix_of(main) {
            assert(stage =~= main);
        }
    }
}

/// What is recorded once a request is through.
spec fn settled(
    after: Map<Seq<char>, EntryView>,
    m: ManifestView,
    asked: Seq<OrderView>,
    only: bool,
) -> bool {
    &&& forall|id: Seq<char>| #[trigger] m.mods.contains_key(id) ==> after.contains_key(id)
    &&& forall|id: Seq<char>| #[trigger]
        m.mods.contains_key(id) && !is_asked(asked, id) ==> after[id] == m.mods[id]
    &&& forall|j: int|
        0 <= j < asked.len() && reached(m, asked, only, j) ==> {
            let e = after[(#[trigger] asked[j]).0];
            &&& after.contains_key(asked[j].0)
            &&& e.order == Some(asked[j].1)
            &&& e.original == entry_or_blank(m, asked[j].0).original
        }
    &&& forall|i: int, j: int|
        0 <= i < j < asked.len() && reached(m, asked, only, i) && reached(m, asked, only, j)
            && after[(#[trigger] asked[i]).0].enabled && after[(#[trigger] asked[j]).0].enabled
            ==> files_load_before(after[asked[i].0], after[asked[j].0])
}

/// Where the files of the mods went is what is recorded of them.
spec fn placed_as_recorded(
    after: Map<Seq<char>, EntryView>,
    m: ManifestView,
    asked: Seq<OrderView>,
    only: bool,
    placements: Seq<GroupView>,
) -> bool {
    &&& forall|j: int|
        0 <= j < asked.len() && reached(m, asked, only, j) && after[(
        #[trigger] asked[j]).0].enabled ==> placements.contains(
            entry_group(asked[j].0, after[asked[j].0]),
        )
    &&& forall|a: int|
        0 <= a < placements.len() ==> {
            let g = #[trigger] placements[a];
            &&& is_asked(asked, g.mod_id)
            &&& only ==> m.mods.contains_key(g.mod_id)
            &&& after.contains_key(g.mod_id)
            &&& after[g.mod_id].enabled
            &&& g == entry_group(g.mod_id, after[g.mod_id])
        }
    &&& forall|a: int, c: int|
        0 <= a < c < placements.len() ==> (#[trigger] placements[a]).mod_id != (
        #[trigger] placements[c]).mod_id
}

/// A mod that has files stays enabled, with as many of them; one that has none is disabled.
spec fn kept_active(
    s: OrderState,
    after: Map<Seq<char>, EntryView>,
    m: ManifestView,
    asked: Seq<OrderView>,
    only: bool,
) -> bool {
    forall|j: int|
        0 <= j < asked.len() && reached(m, asked, only, j) ==> {
            let e = after[(#[trigger] asked[j]).0];
            let f = s.manifest.mods[asked[j].0];
            &&& e.enabled <==> is_active(f)
            &&& is_active(f) ==> e.current.len() == f.current.len()
        }
}

proof fn lemma_unmoved(s: OrderState, m: ManifestView, asked: Seq<OrderView>, only: bool)
    requires
        each_once(asked),
        stands(s, m, asked, only, asked.len() as int),
        s.groups.len() == 0,
    ensures
        settled(s.manifest.mods, m, asked, only),
        placed_as_recorded(s.manifest.mods, m, asked, only, Seq::empty()),
        kept_active(s, s.manifest.mods, m, asked, only),
{
    let after = s.manifest.mods;
    assert forall|id: Seq<char>| #[trigger]
        m.mods.contains_key(id) && !is_asked(asked, id) implies after[id] == m.mods[id] by {
        assert forall|j: int| 0 <= j < asked.len() implies (#[trigger] asked[j]).0 != id by {}
    }
    assert forall|j: int| 0 <= j < asked.len() && reached(m, asked, only, j) implies !after[(
    #[trigger] asked[j]).0].enabled by {
        if after[asked[j].0].enabled {
            assert(is_active(after[asked[j].0]));
            assert(s.groups.contains(entry_group(asked[j].0, after[asked[j].0])));
        }
    }
}

proof fn lemma_moved(
    d: DiskView,
    b: BaseView,
    repo: RepoView,
    s: OrderState,
    m: ManifestView,
    asked: Seq<OrderView>,
    only: bool,
)
    requires
        base_of(b.path, true) == Some(b),
        each_once(asked),
        stands(s, m, asked, only, asked.len() as int),
        reorder_committed(d, b.path, repo, s.manifest, s.groups).2 is Ok,
    ensures
        ({
            let (e, _, r) = reorder_committed(d, b.path, repo, s.manifest, s.groups);
            let after = mods_on_record(e, b.path);
            settled(after, m, asked, only) && placed_as_recorded(after, m, asked, only, r->Ok_0)
                && kept_active(s, after, m, asked, only)
        }),
{
    let p = b.path;
    let (d1, r) = reorder_staged(d, p, s.groups);
    let (work, placements) = r->Ok_0;
    let k = placements.len() as int;
    let m1 = placements_recorded(s.manifest, placements, k);
    let after = m1.mods;
    lemma_placed_in_order(d1, b, s.groups, work, placements);
    lemma_written(work, p, m1);
    lemma_same_mods(s.manifest, placements, k);
    assert forall|a: int, c: int| 0 <= a < c < placements.len() implies (
    #[trigger] placements[a]).mod_id != (#[trigger] placements[c]).mod_id by {
        assert(placements[a].mod_id == s.groups[a].mod_id);
        assert(placements[c].mod_id == s.groups[c].mod_id);
    }
    assert forall|a: int| 0 <= a < placements.len() implies after[(
    #[trigger] placements[a]).mod_id] == placed_entry(
        s.manifest.mods[placements[a].mod_id],
        placements[a],
    ) && placements[a] == entry_group(placements[a].mod_id, after[placements[a].mod_id])
        && after.contains_key(placements[a].mod_id) && is_asked(asked, placements[a].mod_id) && (
    only ==> m.mods.contains_key(placements[a].mod_id)) by {
        let g = s.groups[a];
        assert(placements[a].mod_id == g.mod_id);
        let j = place_of(asked, g.mod_id);
        assert(asked[j].0 == g.mod_id);
        assert(s.manifest.mods.contains_key(asked[j].0));
        lemma_recorded(s.manifest, placements, k, a);
    }
    assert forall|id: Seq<char>| #[trigger] s.manifest.mods.contains_key(id) implies
        after.contains_key(id) by {
        assert(m1.mods.dom().contains(id));
    }
    assert forall|id: Seq<char>| #[trigger]
        m.mods.contains_key(id) && !is_asked(asked, id) implies after[id] == m.mods[id] by {
        assert forall|j: int| 0 <= j < asked.len() implies (#[trigger] asked[j]).0 != id by {}
        assert(s.manifest.mods[id] == m.mods[id]);
        assert forall|a: int| 0 <= a < placements.len() implies (#[trigger] placements[a]).mod_id
            != id by {
            assert(is_asked(asked, placements[a].mod_id));
        }
        lemma_not_placed(s.manifest, placements, id, k);
    }
    // A mod is placed where it has files, and only there.
    assert forall|j: int| 0 <= j < asked.len() && reached(m, asked, only, j) implies {
        let e = after[(#[trigger] asked[j]).0];
        &&& after.contains_key(asked[j].0)
        &&& e.order == Some(asked[j].1)
        &&& e.original == entry_or_blank(m, asked[j].0).original
        &&& e.enabled ==> placements.contains(entry_group(asked[j].0, e))
        &&& e.enabled <==> is_active(s.manifest.mods[asked[j].0])
        &&& is_active(s.manifest.mods[asked[j].0]) ==> e.current.len()
            == s.manifest.mods[asked[j].0].current.len()
    } by {
        let id = asked[j].0;
        let f = s.manifest.mods[id];
        assert(s.manifest.mods.contains_key(id));
        if is_active(f) {
            let a = choose|a: int| 0 <= a < s.groups.len() && s.groups[a] == entry_group(id, f);
            assert(placements[a].mod_id == s.groups[a].mod_id);
        } else {
            assert forall|a: int| 0 <= a < placements.len() implies (
            #[trigger] placements[a]).mod_id != id by {
                assert(placements[a].mod_id == s.groups[a].mod_id);
                assert(is_active(s.manifest.mods[s.groups[a].mod_id]));
            }
            lemma_not_placed(s.manifest, placements, id, k);
        }
    }
    assert forall|i: int, j: int|
        0 <= i < j < asked.len() && reached(m, asked, only, i) && reached(m, asked, only, j)
            && after[(#[trigger] asked[i]).0].enabled && after[(
        #[trigger] asked[j]).0].enabled implies files_load_before(
        after[asked[i].0],
        after[asked[j].0],
    ) by {
        let x = entry_group(asked[i].0, after[asked[i].0]);
        let y = entry_group(asked[j].0, after[asked[j].0]);
        assert(placements.contains(x) && placements.contains(y));
        let a = choose|a: int| 0 <= a < placements.len() && placements[a] == x;
        let c = choose|c: int| 0 <= c < placements.len() && placements[c] == y;
        assert(s.groups[a].mod_id == asked[i].0);
        assert(s.groups[c].mod_id == asked[j].0);
        lemma_place_of(asked, i);
        lemma_place_of(asked, j);
        assert(a < c) by {
            if c < a {
                assert(place_of(asked, s.groups[c].mod_id) < place_of(asked, s.groups[a].mod_id));
            }
        }
        assert forall|u: int, v: int|
            0 <= u < x.vpks.len() && 0 <= v < y.vpks.len() implies loads_before(
            (x.shard, pak_number(#[trigger] x.vpks[u])->0),
            (y.shard, pak_number(#[trigger] y.vpks[v])->0),
        ) by {
            assert(placements[a].vpks[u] == x.vpks[u]);
            assert(placements[c].vpks[v] == y.vpks[v]);
        }
    }
}

// ---------------------------------------------------------------------------
// The order of the request
// ---------------------------------------------------------------------------

/// Sorting a request keeps what it asks for, lower orders first.
proof fn lemma_sorted_request(list: Seq<OrderView>)
    requires
        each_once(list),
    ensures
        ({
            let asked = sorted_by(list, order_keys(list));
            &&& each_once(asked)
            &&& forall|id: Seq<char>| is_asked(asked, id) <==> is_asked(list, id)
            &&& forall|i: int| 0 <= i < list.len() ==> asked.contains(#[trigger] list[i])
            &&& forall|i: int, j: int|
                0 <= i < j < asked.len() ==> (#[trigger] asked[i]).1 <= (#[trigger] asked[j]).1
        }),
{
    let keys = order_keys(list);
    let places = sorted_places(keys);
    let asked = sorted_by(list, keys);
    law_every_list_can_be_sorted(keys);
    assert forall|i: int| 0 <= i < asked.len() implies 0 <= #[trigger] places[i] < list.len()
        && asked[i] == list[places[i]] by {
        assert(places.contains(places[i]));
    }
    assert forall|i: int, j: int| 0 <= i < j < asked.len() implies (#[trigger] asked[i]).1 <= (
    #[trigger] asked[j]).1 && asked[i].0 != asked[j].0 by {
        let x = places[i];
        let y = places[j];
        assert(place_before(keys, x, y));
        assert(keys[x] == (list[x].1 as u64, 0u64, 0u64));
        assert(keys[y] == (list[y].1 as u64, 0u64, 0u64));
        assert(x != y);
        if x < y {
            assert(list[x].0 != list[y].0);
        } else {
            assert(list[y].0 != list[x].0);
        }
    }
    assert forall|i: int| 0 <= i < list.len() implies asked.contains(#[trigger] list[i]) by {
        assert(places.contains(i));
        let a = choose|a: int| 0 <= a < places.len() && places[a] == i;
        assert(asked[a] == list[i]);
    }
    assert forall|id: Seq<char>| is_asked(asked, id) <==> is_asked(list, id) by {
        if is_asked(asked, id) {
            let i = choose|i: int| 0 <= i < asked.len() && (#[trigger] asked[i]).0 == id;
            assert(list[places[i]].0 == id);
        }
        if is_asked(list, id) {
            let i = choose|i: int| 0 <= i < list.len() && (#[trigger] list[i]).0 == id;
            assert(asked.contains(list[i]));
            let a = choose|a: int| 0 <= a < asked.len() && asked[a] == list[i];
            assert(asked[a].0 == id);
        }
    }
}

proof fn lemma_as_requested(
    after: Map<Seq<char>, EntryView>,
    m: ManifestView,
    list: Seq<OrderView>,
    only: bool,
)
    requires
        each_once(list),
        settled(after, m, sorted_by(list, order_keys(list)), only),
    ensures
        orders_recorded(m.mods, after, list, !only),
{
    let asked = sorted_by(list, order_keys(list));
    lemma_sorted_request(list);
    assert forall|i: int|
        0 <= i < list.len() && (!only || m.mods.contains_key((#[trigger] list[i]).0)) implies {
        &&& after.contains_key(list[i].0)
        &&& after[list[i].0].order == Some(list[i].1)
        &&& m.mods.contains_key(list[i].0) ==> after[list[i].0].original
            == m.mods[list[i].0].original
    } by {
        assert(asked.contains(list[i]));
        let a = choose|a: int| 0 <= a < asked.len() && asked[a] == list[i];
        assert(reached(m, asked, only, a));
        assert(after[asked[a].0].order == Some(asked[a].1));
    }
    assert forall|i: int, j: int|
        0 <= i < list.len() && 0 <= j < list.len() && (#[trigger] list[i]).1 < (
        #[trigger] list[j]).1 && (!only || m.mods.contains_key(list[i].0)) && (!only
            || m.mods.contains_key(list[j].0)) && after[list[i].0].enabled
            && after[list[j].0].enabled implies files_load_before(
        after[list[i].0],
        after[list[j].0],
    ) by {
        assert(asked.contains(list[i]) && asked.contains(list[j]));
        let a = choose|a: int| 0 <= a < asked.len() && asked[a] == list[i];
        let c = choose|c: int| 0 <= c < asked.len() && asked[c] == list[j];
        assert(reached(m, asked, only, a) && reached(m, asked, only, c));
        if c < a {
            assert(asked[c].1 <= asked[a].1);
        }
        assert(files_load_before(after[asked[a].0], after[asked[c].0]));
    }
    assert forall|id: Seq<char>| #[trigger]
        m.mods.contains_key(id) && !is_asked(list, id) implies after[id] == m.mods[id] by {
        assert(!is_asked(asked, id));
    }
}

/// A manifest that records mods stands where it was read.
pub proof fn lemma_still_on_record(d: DiskView, p: PathView)
    requires
        rooted(d),
        d.dom().finite(),
        loaded(d, p).1 is Ok,
    ensures
        loaded(d, p).1->Ok_0.mods == Map::<Seq<char>, EntryView>::empty() || mods_on_record(
            loaded(d, p).0,
            p,
        ) == loaded(d, p).1->Ok_0.mods,
{
    law_reading_overwrites_nothing(d, p);
    lemma_manifest_outside(p);
}

// ---------------------------------------------------------------------------
// The known mods
// ---------------------------------------------------------------------------

proof fn lemma_repo_ordered(repo: RepoView, asked: Seq<OrderView>, k: int)
    requires
        0 <= k <= asked.len(),
        each_once(asked),
        known_by_id(repo),
    ensures
        ({
            let r = repo_ordered(repo, asked, k);
            &&& known_by_id(r)
            &&& r.dom() == repo.dom()
            &&& forall|j: int|
                0 <= j < k && repo.contains_key((#[trigger] asked[j]).0) ==> r[asked[j].0] == (
                ModView { install_order: Some(asked[j].1), ..repo[asked[j].0] })
            &&& forall|id: Seq<char>|
                repo.contains_key(id) && (forall|j: int|
                    0 <= j < k ==> (#[trigger] asked[j]).0 != id) ==> #[trigger] r[id] == repo[id]
        }),
    decreases k,
{
    if k > 0 {
        lemma_repo_ordered(repo, asked, k - 1);
        let s = repo_ordered(repo, asked, k - 1);
        let r = repo_ordered(repo, asked, k);
        let x = asked[k - 1];
        if s.contains_key(x.0) {
            assert(s[x.0] == repo[x.0]);
            assert(r.dom() =~= repo.dom());
        }
        assert forall|j: int| 0 <= j < k && repo.contains_key((#[trigger] asked[j]).0) implies r[asked[j].0]
            == (ModView { install_order: Some(asked[j].1), ..repo[asked[j].0] }) by {
            if j < k - 1 {
                assert(asked[j].0 != asked[k - 1].0);
            } else {
                assert(repo.dom().contains(x.0));
            }
        }
        assert forall|id: Seq<char>|
            repo.contains_key(id) && (forall|j: int|
                0 <= j < k ==> (#[trigger] asked[j]).0 != id) implies #[trigger] r[id] == repo[id] by {
            assert(asked[k - 1].0 != id);
            assert(s[id] == repo[id]);
        }
    }
}

pub proof fn lemma_repo_placed(repo: RepoView, groups: Seq<GroupView>, k: int)
    requires
        0 <= k <= groups.len(),
        known_by_id(repo),
        forall|a: int, c: int|
            0 <= a < c < groups.len() ==> (#[trigger] groups[a]).mod_id != (
            #[trigger] groups[c]).mod_id,
    ensures
        ({
            let r = repo_placed(repo, groups, k);
            &&& known_by_id(r)
            &&& r.dom() == repo.dom()
            &&& forall|a: int|
                0 <= a < k && repo.contains_key((#[trigger] groups[a]).mod_id)
                    ==> r[groups[a].mod_id] == (ModView {
                    installed: groups[a].vpks,
                    ..repo[groups[a].mod_id]
                })
            &&& forall|id: Seq<char>|
                repo.contains_key(id) && (forall|a: int|
                    0 <= a < k ==> (#[trigger] groups[a]).mod_id != id) ==> #[trigger] r[id]
                    == repo[id]
        }),
    decreases k,
{
    if k > 0 {
        lemma_repo_placed(repo, groups, k - 1);
        let s = repo_placed(repo, groups, k - 1);
        let r = repo_placed(repo, groups, k);
        let x = groups[k - 1].mod_id;
        if s.contains_key(x) {
            assert(s[x] == repo[x]);
            assert(r.dom() =~= repo.dom());
        }
        assert forall|a: int| 0 <= a < k && repo.contains_key((#[trigger] groups[a]).mod_id) implies r[groups[a].mod_id]
            == (ModView { installed: groups[a].vpks, ..repo[groups[a].mod_id] }) by {
            if a < k - 1 {
                assert(groups[a].mod_id != groups[k - 1].mod_id);
            } else {
                assert(repo.dom().contains(x));
            }
        }
        assert forall|id: Seq<char>|
            repo.contains_key(id) && (forall|a: int|
                0 <= a < k ==> (#[trigger] groups[a]).mod_id != id) implies #[trigger] r[id]
            == repo[id] by {
            assert(groups[k - 1].mod_id != id);
            assert(s[id] == repo[id]);
        }
    }
}

// ---------------------------------------------------------------------------
// The laws
// ---------------------------------------------------------------------------

/// Of the known mods, those asked for have the order asked for, and where their files
/// are enabled the names recorded of them; the others are as they were.
pub open spec fn known_as_ordered(
    repo: RepoView,
    now: RepoView,
    before: Map<Seq<char>, EntryView>,
    after: Map<Seq<char>, EntryView>,
    asked: Seq<OrderView>,
) -> bool {
    &&& now.dom() == repo.dom()
    &&& forall|id: Seq<char>| #[trigger]
        repo.contains_key(id) && !is_asked(asked, id) ==> now[id] == repo[id]
    &&& forall|i: int|
        0 <= i < asked.len() && repo.contains_key((#[trigger] asked[i]).0) ==> {
            let x = repo[asked[i].0];
            now[asked[i].0] == (ModView {
                install_order: Some(asked[i].1),
                installed: if before.contains_key(asked[i].0) && after[asked[i].0].enabled {
                    after[asked[i].0].current
                } else {
                    x.installed
                },
                ..x
            })
        }
}

/// After a reordering by id, the manifest on the disk records for each mod of the request
/// that it knows the order asked for, and the files load in that order; the mods that are
/// not part of the request are recorded as before. The known mods have their orders too,
/// and those whose files were placed are returned.
pub proof fn law_reordering_records_the_order(
    d: DiskView,
    m: ManagerView,
    list: Seq<OrderView>,
    folder: Option<Seq<char>>,
)
    requires
        rooted(d),
        d.dom().finite(),
        each_once(list),
        known_by_id(m.repo),
        mods_reordered(d, m, list, folder).2 is Ok,
    ensures
        ({
            let p = profile_base(m.game_path, folder)->Ok_0.path;
            let before = loaded(d, p).1->Ok_0.mods;
            let (e, repo, r) = mods_reordered(d, m, list, folder);
            let after = mods_on_record(e, p);
            let out = r->Ok_0;
            &&& orders_recorded(before, after, list, false)
            &&& known_as_ordered(m.repo, repo, before, after, list)
            &&& forall|i: int|
                0 <= i < list.len() && before.contains_key((#[trigger] list[i]).0)
                    && after[list[i].0].enabled && repo.contains_key(list[i].0) ==> out.contains(
                    repo[list[i].0],
                )
            &&& forall|a: int|
                0 <= a < out.len() ==> is_asked(list, (#[trigger] out[a]).id) && repo.contains_key(
                    out[a].id,
                ) && out[a] == repo[out[a].id] && after[out[a].id].enabled
        }),
{
    let b = profile_base(m.game_path, folder)->Ok_0;
    let p = b.path;
    lemma_base_of_profile(m, folder, b);
    let (d1, l) = loaded(d, p);
    let man = l->Ok_0;
    let before = man.mods;
    let asked = sorted_by(list, order_keys(list));
    let n = asked.len() as int;
    lemma_sorted_request(list);
    let s = mods_ordered(d1, b, man, asked, n);
    lemma_mods_ordered(d1, b, man, asked, n);
    lemma_repo_ordered(m.repo, asked, n);
    let known = repo_ordered(m.repo, asked, n);
    let (e, repo, r) = mods_reordered(d, m, list, folder);
    let after = mods_on_record(e, p);
    let placements = if s.groups.len() == 0 {
        Seq::empty()
    } else {
        reorder_committed(d1, p, known, s.manifest, s.groups).2->Ok_0
    };
    if s.groups.len() == 0 {
        lemma_unmoved(s, man, asked, true);
        if s.changed {
            lemma_written(d1, p, s.manifest);
        } else {
            lemma_still_on_record(d, p);
        }
        assert(repo_placed(known, placements, 0) == known);
    } else {
        lemma_moved(d1, b, known, s, man, asked, true);
    }
    assert(settled(after, man, asked, true));
    assert(placed_as_recorded(after, man, asked, true, placements));
    lemma_as_requested(after, man, list, true);
    let k = placements.len() as int;
    lemma_repo_placed(known, placements, k);
    assert(repo == repo_placed(known, placements, k));
    assert forall|id: Seq<char>| #[trigger]
        m.repo.contains_key(id) && !is_asked(list, id) implies repo[id] == m.repo[id] by {
        assert(!is_asked(asked, id));
        assert forall|j: int| 0 <= j < n implies (#[trigger] asked[j]).0 != id by {}
        assert(known[id] == m.repo[id]);
        assert forall|a: int| 0 <= a < k implies (#[trigger] placements[a]).mod_id != id by {
            assert(is_asked(asked, placements[a].mod_id));
        }
        assert(known.dom().contains(id));
    }
    assert forall|i: int| 0 <= i < list.len() && m.repo.contains_key((#[trigger] list[i]).0) implies {
        let x = m.repo[list[i].0];
        repo[list[i].0] == (ModView {
            install_order: Some(list[i].1),
            installed: if before.contains_key(list[i].0) && after[list[i].0].enabled {
                after[list[i].0].current
            } else {
                x.installed
            },
            ..x
        })
    } by {
        let id = list[i].0;
        assert(asked.contains(list[i]));
        let j = choose|j: int| 0 <= j < asked.len() && asked[j] == list[i];
        assert(asked[j].0 == id);
        assert(known.dom().contains(id));
        assert(known.contains_key(id));
        if before.contains_key(id) && after[id].enabled {
            assert(reached(man, asked, true, j));
            let g = entry_group(id, after[id]);
            assert(placements.contains(g));
            let a = choose|a: int| 0 <= a < k && placements[a] == g;
            assert(placements[a].mod_id == id);
        } else {
            assert forall|a: int| 0 <= a < k implies (#[trigger] placements[a]).mod_id != id by {
                assert(is_asked(asked, placements[a].mod_id));
            }
        }
    }
    let out = r->Ok_0;
    let pred = |g: GroupView| repo.contains_key(g.mod_id);
    let show = |g: GroupView| repo[g.mod_id];
    let kept = placements.filter(pred);
    lemma_filter_members(placements, pred);
    assert(out =~= kept.map_values(show)) by {
        if s.groups.len() == 0 {
            reveal(Seq::filter);
        }
    }
    assert forall|a: int| 0 <= a < out.len() implies is_asked(list, (#[trigger] out[a]).id)
        && repo.contains_key(out[a].id) && out[a] == repo[out[a].id] && after[out[a].id].enabled by {
        let g = kept[a];
        assert(kept.contains(g));
        let c = choose|c: int| 0 <= c < k && placements[c] == g;
        assert(is_asked(asked, placements[c].mod_id));
        assert(known_by_id(repo));
        assert(repo[g.mod_id].id == g.mod_id);
    }
    assert forall|i: int|
        0 <= i < list.len() && before.contains_key((#[trigger] list[i]).0)
            && after[list[i].0].enabled && repo.contains_key(list[i].0) implies out.contains(
        repo[list[i].0],
    ) by {
        let id = list[i].0;
        assert(asked.contains(list[i]));
        let j = choose|j: int| 0 <= j < asked.len() && asked[j] == list[i];
        assert(asked[j].0 == id && reached(man, asked, true, j));
        let g = entry_group(id, after[id]);
        assert(placements.contains(g));
        assert(kept.contains(g));
        let a = choose|a: int| 0 <= a < kept.len() && kept[a] == g;
        assert(out[a] == repo[id]);
    }
}

/// After a reordering by remote id, the manifest on the disk records for each mod of the
/// request the order asked for, and the files load in that order; the mods that are not
/// part of the request are recorded as before. What is returned is what is recorded of the
/// enabled mods of the request.
pub proof fn law_reordering_by_remote_id_records_the_order(
    d: DiskView,
    m: ManagerView,
    list: Seq<RemoteView>,
    folder: Option<Seq<char>>,
)
    requires
        rooted(d),
        d.dom().finite(),
        each_once(remote_orders(list)),
        remote_reordered(d, m, list, folder).2 is Ok,
    ensures
        ({
            let p = profile_base(m.game_path, folder)->Ok_0.path;
            let before = loaded(d, p).1->Ok_0.mods;
            let (e, repo, r) = remote_reordered(d, m, list, folder);
            let after = mods_on_record(e, p);
            let out = r->Ok_0;
            &&& orders_recorded(before, after, remote_orders(list), true)
            &&& forall|i: int|
                0 <= i < list.len() && after[(#[trigger] list[i]).0].enabled ==> out.contains(
                    (list[i].0, after[list[i].0].current),
                )
            &&& forall|a: int|
                0 <= a < out.len() ==> is_asked(remote_orders(list), (#[trigger] out[a]).0)
                    && after[out[a].0].enabled && out[a].1 == after[out[a].0].current
        }),
{
    let b = profile_base(m.game_path, folder)->Ok_0;
    let p = b.path;
    lemma_base_of_profile(m, folder, b);
    let (d1, l) = loaded(d, p);
    let man = l->Ok_0;
    let orders = remote_orders(list);
    let keys = remote_keys(list);
    assert(keys =~= order_keys(orders));
    let sorted = sorted_by(list, keys);
    let asked = sorted_by(orders, order_keys(orders));
    law_every_list_can_be_sorted(keys);
    assert(remote_orders(sorted) =~= asked) by {
        let places = sorted_places(keys);
        assert forall|i: int| 0 <= i < places.len() implies 0 <= #[trigger] places[i]
            < list.len() by {
            assert(places.contains(places[i]));
        }
    }
    let n = sorted.len() as int;
    lemma_sorted_request(orders);
    let s = remote_ordered(d1, b, man, sorted, n);
    lemma_remote_ordered(d1, b, man, sorted, n);
    let (e, repo, r) = remote_reordered(d, m, list, folder);
    let after = mods_on_record(e, p);
    let placements = if s.groups.len() == 0 {
        Seq::empty()
    } else {
        reorder_committed(d1, p, m.repo, s.manifest, s.groups).2->Ok_0
    };
    if s.groups.len() == 0 {
        lemma_unmoved(s, man, asked, false);
        if s.changed {
            lemma_written(d1, p, s.manifest);
        } else {
            lemma_still_on_record(d, p);
            if n > 0 {
                assert(reached(man, asked, false, 0));
                assert(s.manifest.mods.contains_key(asked[0].0));
            }
        }
    } else {
        lemma_moved(d1, b, m.repo, s, man, asked, false);
    }
    assert(settled(after, man, asked, false));
    assert(placed_as_recorded(after, man, asked, false, placements));
    lemma_as_requested(after, man, orders, false);
    let out = r->Ok_0;
    assert(out =~= named_files(placements));
    assert forall|i: int| 0 <= i < list.len() && after[(#[trigger] list[i]).0].enabled implies out.contains(
        (list[i].0, after[list[i].0].current),
    ) by {
        let id = list[i].0;
        assert(orders[i].0 == id);
        assert(asked.contains(orders[i]));
        let j = choose|j: int| 0 <= j < asked.len() && asked[j] == orders[i];
        assert(asked[j].0 == id && reached(man, asked, false, j));
        let g = entry_group(id, after[id]);
        assert(placements.contains(g));
        let a = choose|a: int| 0 <= a < placements.len() && placements[a] == g;
        assert(out[a] == (id, after[id].current));
    }
    assert forall|a: int| 0 <= a < out.len() implies is_asked(orders, (#[trigger] out[a]).0)
        && after[out[a].0].enabled && out[a].1 == after[out[a].0].current by {
        assert(is_asked(asked, placements[a].mod_id));
    }
}

// ---------------------------------------------------------------------------
// Which mods stay enabled
// ---------------------------------------------------------------------------

/// Which files of a mod are there decides whether it is enabled after a request: with those on
/// record if all of them are, with the given ones if all of those are, and not at all if none
/// is there.
pub open spec fn files_decide(
    d: DiskView,
    b: BaseView,
    e: EntryView,
    given: Seq<Seq<char>>,
    after: EntryView,
) -> bool {
    let dir = shard_dir_of(b, e.shard);
    let own = e.current.len() > 0 && all_there(d, dir, e.current);
    &&& own && (e.enabled || given.len() > 0) ==> after.enabled && after.current.len()
        == e.current.len()
    &&& !own && given.len() > 0 && all_there(d, dir, given) ==> after.enabled
        && after.current.len() == given.len()
    &&& (forall|n: Seq<char>| #[trigger]
        e.current.contains(n) || given.contains(n) ==> !exists_at(d, dir.push(n)))
        ==> !after.enabled
}

proof fn lemma_files_decide(
    d: DiskView,
    b: BaseView,
    e: EntryView,
    order: u32,
    given: Seq<Seq<char>>,
    after: EntryView,
)
    requires
        all_plain(e.current),
        all_plain(given),
        ({
            let f = reconciled(d, b, EntryView { order: Some(order), ..e }, given);
            &&& after.enabled <==> is_active(f)
            &&& is_active(f) ==> after.current.len() == f.current.len()
        }),
    ensures
        files_decide(d, b, e, given, after),
{
    let dir = shard_dir_of(b, e.shard);
    law_files_that_are_there_count(d, dir, e.current, given);
    let out = resolved_vpks(d, dir, e.current, given);
    if forall|n: Seq<char>| #[trigger]
        e.current.contains(n) || given.contains(n) ==> !exists_at(d, dir.push(n)) {
        if out.len() > 0 {
            assert(exists_at(d, dir.push(out[0])));
            assert(e.current.contains(out[0]) || given.contains(out[0]));
        }
    }
}

proof fn lemma_untouched(
    s: OrderState,
    m: ManifestView,
    asked: Seq<OrderView>,
    only: bool,
    k: int,
)
    requires
        each_once(asked),
        0 < k <= asked.len(),
        stands(s, m, asked, only, k - 1),
    ensures
        entry_or_blank(s.manifest, asked[k - 1].0) == entry_or_blank(m, asked[k - 1].0),
{
    let id = asked[k - 1].0;
    assert forall|j: int| 0 <= j < k - 1 implies (#[trigger] asked[j]).0 != id by {
        assert(asked[j].0 != asked[k - 1].0);
    }
    if m.mods.contains_key(id) {
        assert(s.manifest.mods[id] == m.mods[id]);
    }
}

proof fn lemma_remote_entry(
    d: DiskView,
    b: BaseView,
    m: ManifestView,
    list: Seq<RemoteView>,
    k: int,
    j: int,
)
    requires
        0 <= j < k <= list.len(),
        each_once(remote_orders(list)),
    ensures
        remote_ordered(d, b, m, list, k).manifest.mods[list[j].0] == reconciled(
            d,
            b,
            EntryView { order: Some(list[j].2), ..entry_or_blank(m, list[j].0) },
            file_names(list[j].1),
        ),
    decreases k,
{
    let asked = remote_orders(list);
    assert(asked[j].0 == list[j].0);
    assert(asked[k - 1].0 == list[k - 1].0);
    if j < k - 1 {
        lemma_remote_entry(d, b, m, list, k - 1, j);
        assert(asked[j].0 != asked[k - 1].0);
    } else {
        lemma_remote_ordered(d, b, m, list, k - 1);
        lemma_untouched(remote_ordered(d, b, m, list, k - 1), m, asked, false, k);
    }
}

proof fn lemma_mods_entry(
    d: DiskView,
    b: BaseView,
    m: ManifestView,
    asked: Seq<OrderView>,
    k: int,
    j: int,
)
    requires
        0 <= j < k <= asked.len(),
        each_once(asked),
        m.mods.contains_key(asked[j].0),
    ensures
        mods_ordered(d, b, m, asked, k).manifest.mods[asked[j].0] == reconciled(
            d,
            b,
            EntryView { order: Some(asked[j].1), ..m.mods[asked[j].0] },
            Seq::empty(),
        ),
    decreases k,
{
    if j < k - 1 {
        lemma_mods_entry(d, b, m, asked, k - 1, j);
        assert(asked[j].0 != asked[k - 1].0);
    } else {
        let s = mods_ordered(d, b, m, asked, k - 1);
        lemma_mods_ordered(d, b, m, asked, k - 1);
        lemma_untouched(s, m, asked, true, k);
        assert(s.manifest.mods.contains_key(asked[j].0));
    }
}

/// Reordering mods leaves a mod enabled whose files are there, with as many of them; one of
/// which no file is there is on record as disabled.
pub proof fn law_reordering_keeps_mods_enabled(
    d: DiskView,
    m: ManagerView,
    list: Seq<OrderView>,
    folder: Option<Seq<char>>,
    i: int,
)
    requires
        rooted(d),
        d.dom().finite(),
        each_once(list),
        mods_reordered(d, m, list, folder).2 is Ok,
        0 <= i < list.len(),
        ({
            let before = loaded(d, profile_base(m.game_path, folder)->Ok_0.path).1->Ok_0.mods;
            before.contains_key(list[i].0) && all_plain(before[list[i].0].current)
        }),
    ensures
        ({
            let b = profile_base(m.game_path, folder)->Ok_0;
            let (d1, l) = loaded(d, b.path);
            let after = mods_on_record(mods_reordered(d, m, list, folder).0, b.path);
            files_decide(d1, b, l->Ok_0.mods[list[i].0], Seq::empty(), after[list[i].0])
        }),
{
    let b = profile_base(m.game_path, folder)->Ok_0;
    let p = b.path;
    lemma_base_of_profile(m, folder, b);
    let (d1, l) = loaded(d, p);
    let man = l->Ok_0;
    let asked = sorted_by(list, order_keys(list));
    let n = asked.len() as int;
    lemma_sorted_request(list);
    let s = mods_ordered(d1, b, man, asked, n);
    lemma_mods_ordered(d1, b, man, asked, n);
    let known = repo_ordered(m.repo, asked, n);
    let e = mods_reordered(d, m, list, folder).0;
    let after = mods_on_record(e, p);
    if s.groups.len() == 0 {
        lemma_unmoved(s, man, asked, true);
        if s.changed {
            lemma_written(d1, p, s.manifest);
        } else {
            lemma_still_on_record(d, p);
        }
        assert(after == s.manifest.mods);
    } else {
        lemma_moved(d1, b, known, s, man, asked, true);
    }
    let id = list[i].0;
    assert(asked.contains(list[i]));
    let j = choose|j: int| 0 <= j < asked.len() && asked[j] == list[i];
    assert(asked[j].0 == id && reached(man, asked, true, j));
    lemma_mods_entry(d1, b, man, asked, n, j);
    lemma_files_decide(d1, b, man.mods[id], list[i].1, Seq::empty(), after[id]);
}

/// Reordering by remote id leaves or makes a mod enabled whose recorded or given files are
/// there, with as many of them; one of which no file is there is on record as disabled.
pub proof fn law_reordering_by_remote_id_enables_mods(
    d: DiskView,
    m: ManagerView,
    list: Seq<RemoteView>,
    folder: Option<Seq<char>>,
    i: int,
    entry: EntryView,
)
    requires
        rooted(d),
        d.dom().finite(),
        each_once(remote_orders(list)),
        remote_reordered(d, m, list, folder).2 is Ok,
        0 <= i < list.len(),
        all_plain(list[i].1),
        ({
            let before = loaded(d, profile_base(m.game_path, folder)->Ok_0.path).1->Ok_0.mods;
            &&& before.contains_key(list[i].0) ==> entry == before[list[i].0]
            &&& !before.contains_key(list[i].0) ==> !entry.enabled && entry.shard == 1
                && entry.current.len() == 0 && entry.disabled.len() == 0 && entry.original.len()
                == 0 && entry.order is None
        }),
        all_plain(entry.current),
    ensures
        ({
            let b = profile_base(m.game_path, folder)->Ok_0;
            let d1 = loaded(d, b.path).0;
            let after = mods_on_record(remote_reordered(d, m, list, folder).0, b.path);
            files_decide(d1, b, entry, list[i].1, after[list[i].0])
        }),
{
    let b = profile_base(m.game_path, folder)->Ok_0;
    let p = b.path;
    lemma_base_of_profile(m, folder, b);
    let (d1, l) = loaded(d, p);
    let man = l->Ok_0;
    let orders = remote_orders(list);
    let keys = remote_keys(list);
    assert(keys =~= order_keys(orders));
    let sorted = sorted_by(list, keys);
    let asked = sorted_by(orders, order_keys(orders));
    law_every_list_can_be_sorted(keys);
    let places = sorted_places(keys);
    assert(remote_orders(sorted) =~= asked) by {
        assert forall|i: int| 0 <= i < places.len() implies 0 <= #[trigger] places[i]
            < list.len() by {
            assert(places.contains(places[i]));
        }
    }
    let n = sorted.len() as int;
    lemma_sorted_request(orders);
    let s = remote_ordered(d1, b, man, sorted, n);
    lemma_remote_ordered(d1, b, man, sorted, n);
    let e = remote_reordered(d, m, list, folder).0;
    let after = mods_on_record(e, p);
    let id = list[i].0;
    assert(places.contains(i));
    let j = choose|j: int| 0 <= j < places.len() && places[j] == i;
    assert(sorted[j] == list[i]);
    assert(asked[j].0 == id && reached(man, asked, false, j));
    if s.groups.len() == 0 {
        lemma_unmoved(s, man, asked, false);
        if s.changed {
            lemma_written(d1, p, s.manifest);
        } else {
            lemma_still_on_record(d, p);
            assert(s.manifest.mods.contains_key(asked[j].0));
        }
        assert(after == s.manifest.mods);
    } else {
        lemma_moved(d1, b, m.repo, s, man, asked, false);
    }
    lemma_remote_entry(d1, b, man, sorted, n, j);
    let given = list[i].1;
    assert(file_names(given) =~= given) by {
        assert forall|x: int| 0 <= x < given.len() implies file_names(given)[x] == given[x] by {
            lemma_plain_base(given[x]);
        }
    }
    assert(entry_or_blank(man, id) == entry) by {
        if !man.mods.contains_key(id) {
            assert(entry.current =~= Seq::<Seq<char>>::empty());
            assert(entry.disabled =~= Seq::<Seq<char>>::empty());
            assert(entry.original =~= Seq::<Seq<char>>::empty());
        }
    }
    lemma_files_decide(d1, b, entry, list[i].2, given, after[id]);
}

/// A request asks for each mod in its list, in its order, with the files and the order that
/// stand beside it.
pub proof fn law_requests_are_taken_as_given(
    orders: Seq<(String, u32)>,
    remote: Seq<(String, Vec<String>, u32)>,
    i: int,
)
    ensures
        order_views(orders).len() == orders.len(),
        remote_views(remote).len() == remote.len(),
        0 <= i < orders.len() ==> order_views(orders)[i].0 == orders[i].0@ && order_views(
            orders,
        )[i].1 == orders[i].1,
        0 <= i < remote.len() ==> remote_views(remote)[i].0 == remote[i].0@ && remote_views(
            remote,
        )[i].2 == remote[i].2 && remote_views(remote)[i].1.len() == remote[i].1@.len(),
        0 <= i < remote.len() ==> forall|k: int|
            0 <= k < remote[i].1@.len() ==> remote_views(remote)[i].1[k]
                == #[trigger] remote[i].1@[k]@,
{
}

} // verus!
