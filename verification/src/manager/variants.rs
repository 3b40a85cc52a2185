//! What changing the variant of a mod does, and what it offers.
use super::{profile_base, ManagerView, ModView};
use super::hydration::known_by_id;
use super::layout::lemma_pak_is_own;
use super::ordered::{
    left_by, lemma_clean_read, lemma_own_group, lemma_recorded_after, lemma_stays,
    lemma_still_free, recorded_name, records_files, reordering,
};
use super::ordering::{
    variant_applied, variant_enabled, variant_swap, variants_available, without_prefixes,
};
use super::recording::{
    lemma_base_of_profile, lemma_new_dirs_plain, lemma_not_the_manifest, lemma_save_keeps,
};
use super::reorder::{
    all_reconciled, chosen_shard, lemma_last_active, ordered_groups, profile_reordered,
    reorder_committed, repo_placed,
};
use super::requested_order::lemma_repo_placed;
use crate::disk::{
    exists_at, fresh_manifest, is_dir_at, is_file_at, law_changes_keep_the_tree_rooted,
    lemma_dirs_there, lemma_filter_all, lemma_filter_members, lemma_names_in, lemma_rooted_at,
    names_in, rename_op, rooted, same_at, DiskView, NodeView, OpView,
};
use crate::error::ErrorView;
use crate::file_tree::{tree_of, FileTreeView};
use crate::manifest_store::{
    lemma_saved, loaded, manifest_path, manifest_temp_path, mods_on_record, nothing_staged,
};
use crate::manifest_store::rereading::lemma_manifest_outside;
use crate::order::law_sorting_keeps_every_value;
use crate::path::{
    base_name, lemma_join_plain, lemma_own_name, path_join, plain_name, vpk_name, PathView,
    TreePath,
};
use crate::shard::{
    base_of, base_ok, shard_dir_of, valid_shard, BaseView, MAX_SHARDS, REORDER_STAGING_DIR,
    SHARD_CAPACITY,
};
use crate::table::lemma_finite_has_order;
use crate::text::starts_with;
use crate::vpk_manager::{MissingVpkPolicy, SwapView};
use crate::vpk_manager::moves::{can_be_enabled, law_enabling_moves_each_file, places, ready};
use crate::vpk_manager::naming::{
    law_enabled_names_round_trip, lemma_pak_plain, pak_name, pak_number,
};
use crate::vpk_manager::operations::{
    disable_first, disable_pairs, disabled, enabled, file_names, prefixed, prefixed_found,
    prefixed_in, Pair,
};
use crate::vpk_manager::packing::lemma_placed_in_order;
use crate::vpk_manager::reorder::reorder_staged;
use crate::vpk_manager::setting_aside::{lemma_shard_dir, plain_tree};
use crate::vpk_manager::swap::{current_disabled, current_present, selected_names, swapped};
use crate::vpk_manifest::{
    marked_enabled, shard_of_mod, ManifestView, CURRENT_MANIFEST_VERSION, MANIFEST_FILENAME,
    MANIFEST_TEMP_FILENAME,
};
use vstd::prelude::*;

verus! {

/// A file tree has a file of this name.
pub open spec fn offers(t: FileTreeView, name: Seq<char>) -> bool {
    exists|a: int| 0 <= a < t.files.len() && (#[trigger] t.files[a]).name == name
}

/// A file tree counts its files, has each name once, and has chosen just those of
/// `selected`.
pub open spec fn chooses(t: FileTreeView, selected: Seq<Seq<char>>) -> bool {
    &&& t.total_files == t.files.len()
    &&& t.has_multiple_files == (t.files.len() > 1)
    &&& forall|a: int, c: int|
        0 <= a < c < t.files.len() ==> (#[trigger] t.files[a]).name != (#[trigger] t.files[c]).name
    &&& forall|a: int|
        0 <= a < t.files.len() ==> (#[trigger] t.files[a]).is_selected == selected.contains(
            t.files[a].name,
        ) && t.files[a].path == t.files[a].name
    &&& forall|i: int| 0 <= i < selected.len() ==> offers(t, #[trigger] selected[i])
}

proof fn lemma_offered(id: Seq<char>, selected: Seq<Seq<char>>, found: Seq<Seq<char>>)
    requires
        forall|i: int| 0 <= i < found.len() ==> starts_with(#[trigger] found[i], id + "_"@),
    ensures
        ({
            let t = tree_of(variants_available(id, selected, found), selected);
            &&& chooses(t, selected)
            &&& forall|n: Seq<char>| #[trigger]
                offers(t, n) <==> selected.contains(n) || found.contains(prefixed(id, n))
        }),
{
    let stripped = without_prefixes(id, found);
    let all = selected + stripped;
    let names = variants_available(id, selected, found);
    let t = tree_of(names, selected);
    law_sorting_keeps_every_value::<String>(all);
    assert forall|a: int| 0 <= a < t.files.len() implies (#[trigger] t.files[a]).name == names[a] by {}
    assert forall|a: int, c: int| 0 <= a < c < t.files.len() implies (#[trigger] t.files[a]).name
        != (#[trigger] t.files[c]).name by {
        assert(names[a] != names[c]);
    }
    assert forall|n: Seq<char>| #[trigger] offers(t, n) <==> names.contains(n) by {
        if offers(t, n) {
            let a = choose|a: int| 0 <= a < t.files.len() && (#[trigger] t.files[a]).name == n;
            assert(names[a] == n);
        }
        if names.contains(n) {
            let a = choose|a: int| 0 <= a < names.len() && names[a] == n;
            assert(t.files[a].name == n);
        }
    }
    assert forall|i: int| 0 <= i < found.len() implies #[trigger] found[i] == prefixed(
        id,
        stripped[i],
    ) by {
        let x = found[i];
        let pre = id + "_"@;
        assert(starts_with(x, pre));
        assert(stripped[i] == x.skip(pre.len() as int));
        assert(x =~= x.take(pre.len() as int) + x.skip(pre.len() as int));
        assert(prefixed(id, stripped[i]) =~= pre + stripped[i]);
    }
    assert forall|n: Seq<char>| #[trigger] offers(t, n) <==> selected.contains(n)
        || found.contains(prefixed(id, n)) by {
        assert(names.contains(n) <==> all.contains(n));
        if all.contains(n) {
            let i = choose|i: int| 0 <= i < all.len() && all[i] == n;
            if i < selected.len() {
                assert(selected[i] == n);
            } else {
                let k = i - selected.len();
                assert(stripped[k] == n);
                assert(found[k] == prefixed(id, n));
            }
        }
        if selected.contains(n) {
            let i = choose|i: int| 0 <= i < selected.len() && selected[i] == n;
            assert(all[i] == n);
        }
        if found.contains(prefixed(id, n)) {
            let k = choose|k: int| 0 <= k < found.len() && found[k] == prefixed(id, n);
            assert(found[k] == prefixed(id, stripped[k]));
            let pre = id + "_"@;
            assert(prefixed(id, n).skip(pre.len() as int) =~= n);
            assert(prefixed(id, stripped[k]).skip(pre.len() as int) =~= stripped[k]);
            assert(all[selected.len() + k] == n);
        }
    }
    assert forall|i: int| 0 <= i < selected.len() implies offers(t, #[trigger] selected[i]) by {
        assert(selected.contains(selected[i]));
    }
}

/// The disabled files that are found are all of them.
proof fn lemma_found(d: DiskView, p: PathView, id: Seq<char>)
    requires
        d.dom().finite(),
        prefixed_found(d, p, id) is Ok,
        is_dir_at(d, p),
    ensures
        forall|x: Seq<char>| #[trigger]
            prefixed_found(d, p, id)->Ok_0.contains(x) <==> prefixed_in(d, p, id, x),
{
    lemma_finite_has_order::<TreePath, NodeView>(d);
    lemma_names_in(d, p);
    lemma_filter_members(names_in(d, p), |n: Seq<char>| prefixed_in(d, p, id, n));
    assert forall|x: Seq<char>| #[trigger]
        prefixed_found(d, p, id)->Ok_0.contains(x) <==> prefixed_in(d, p, id, x) by {
        if prefixed_in(d, p, id, x) {
            assert(names_in(d, p).contains(x));
        }
    }
}

// ---------------------------------------------------------------------------
// Disabling the files of the current variant
// ---------------------------------------------------------------------------

/// What disabling does to each file.
proof fn lemma_each_disabled(
    d: DiskView,
    from: PathView,
    to: PathView,
    id: Seq<char>,
    pairs: Seq<Pair>,
    k: int,
)
    requires
        rooted(d),
        d.dom().finite(),
        0 <= k <= pairs.len(),
        forall|i: int|
            0 <= i < pairs.len() ==> plain_name((#[trigger] pairs[i]).0) && is_file_at(
                d,
                from.push(pairs[i].0),
            ) && plain_name(prefixed(id, pairs[i].1)) && !is_dir_at(
                d,
                to.push(prefixed(id, pairs[i].1)),
            ) && !starts_with(pairs[i].0, id + "_"@),
        forall|i: int, j: int|
            0 <= i < j < pairs.len() ==> (#[trigger] pairs[i]).0 != (#[trigger] pairs[j]).0
                && pairs[i].1 != pairs[j].1,
        disable_first(d, from, to, id, pairs, k).out is Ok,
    ensures
        ({
            let e = disable_first(d, from, to, id, pairs, k).work;
            &&& rooted(e)
            &&& e.dom().finite()
            &&& forall|i: int|
                0 <= i < k ==> {
                    let t = to.push(prefixed(id, (#[trigger] pairs[i]).1));
                    &&& is_file_at(e, t)
                    &&& e[t] == (if d.contains_key(t) {
                        d[t]
                    } else {
                        d[from.push(pairs[i].0)]
                    })
                }
            &&& forall|i: int| 0 <= i < k ==> !e.contains_key(from.push((#[trigger] pairs[i]).0))
            &&& forall|q: PathView|
                (forall|i: int|
                    0 <= i < k ==> from.push((#[trigger] pairs[i]).0) != q && to.push(
                        prefixed(id, pairs[i].1),
                    ) != q) ==> #[trigger] same_at(d, e, q)
        }),
    decreases k,
{
    if k > 0 {
        lemma_each_disabled(d, from, to, id, pairs, k - 1);
        let s = disable_first(d, from, to, id, pairs, k - 1);
        let was = s.work;
        let e = disable_first(d, from, to, id, pairs, k).work;
        let x = pairs[k - 1];
        let name = prefixed(id, x.1);
        let source = from.push(x.0);
        let target = to.push(name);
        lemma_join_plain(from, x.0);
        lemma_join_plain(to, name);
        assert forall|i: int, j: int| 0 <= i < pairs.len() && 0 <= j < pairs.len() implies from.push(
            (#[trigger] pairs[i]).0,
        ) != to.push(prefixed(id, (#[trigger] pairs[j]).1)) by {
            let a = from.push(pairs[i].0);
            let c = to.push(prefixed(id, pairs[j].1));
            if a == c {
                assert(a.last() == pairs[i].0 && c.last() == prefixed(id, pairs[j].1));
                let pre = id + "_"@;
                assert(prefixed(id, pairs[j].1).take(pre.len() as int) =~= pre);
            }
        }
        assert forall|i: int, j: int| 0 <= i < j < pairs.len() implies from.push(
            (#[trigger] pairs[i]).0,
        ) != from.push((#[trigger] pairs[j]).0) && to.push(prefixed(id, pairs[i].1)) != to.push(
            prefixed(id, pairs[j].1),
        ) by {
            assert(from.push(pairs[i].0).last() == pairs[i].0);
            assert(from.push(pairs[j].0).last() == pairs[j].0);
            let pre = id + "_"@;
            let a = prefixed(id, pairs[i].1);
            let c = prefixed(id, pairs[j].1);
            assert(to.push(a).last() == a);
            assert(to.push(c).last() == c);
            assert(a.skip(pre.len() as int) =~= pairs[i].1);
            assert(c.skip(pre.len() as int) =~= pairs[j].1);
        }
        assert(same_at(d, was, source));
        assert(same_at(d, was, target));
        if exists_at(was, target) {
            law_changes_keep_the_tree_rooted(was, OpView::Delete(source));
        } else {
            assert(rename_op(was, source, target) == OpView::Move(source, target));
            law_changes_keep_the_tree_rooted(was, OpView::Move(source, target));
        }
        assert forall|i: int| 0 <= i < k implies {
            let t = to.push(prefixed(id, (#[trigger] pairs[i]).1));
            &&& is_file_at(e, t)
            &&& e[t] == (if d.contains_key(t) {
                d[t]
            } else {
                d[from.push(pairs[i].0)]
            })
        } by {
            let t = to.push(prefixed(id, pairs[i].1));
            assert(t != source);
            if i < k - 1 {
                assert(t != target);
                assert(is_file_at(was, t));
            }
        }
        assert forall|i: int| 0 <= i < k implies !e.contains_key(
            from.push((#[trigger] pairs[i]).0),
        ) by {
            assert(from.push(pairs[i].0) != target);
        }
        assert forall|q: PathView|
            (forall|i: int|
                0 <= i < k ==> from.push((#[trigger] pairs[i]).0) != q && to.push(
                    prefixed(id, pairs[i].1),
                ) != q) implies #[trigger] same_at(d, e, q) by {
            assert(from.push(pairs[k - 1].0) != q);
            assert(same_at(d, was, q));
        }
    }
}

/// A request to change the variant of a mod in a tree without odd names: the enabled files
/// are named once each and not like disabled ones, the files of either variant are VPKs, and
/// no directory of the profile is named like a VPK.
pub open spec fn sound_request(
    d: DiskView,
    b: BaseView,
    id: Seq<char>,
    installed: Seq<Seq<char>>,
    original: Seq<Seq<char>>,
    selected: Seq<Seq<char>>,
) -> bool {
    &&& plain_tree(d)
    &&& is_dir_at(d, b.path)
    &&& forall|n: Seq<char>| #[trigger] vpk_name(n) ==> !is_dir_at(d, b.path.push(n))
    &&& file_names(installed).no_duplicates()
    &&& original.no_duplicates()
    &&& forall|i: int|
        0 <= i < installed.len() ==> plain_name(base_name(#[trigger] installed[i]))
            && !starts_with(base_name(installed[i]), id + "_"@)
    &&& forall|i: int|
        0 <= i < original.len() ==> disabled_vpk(prefixed(id, #[trigger] original[i]))
    &&& forall|i: int|
        0 <= i < selected.len() ==> disabled_vpk(prefixed(id, #[trigger] selected[i]))
}

/// A name for a VPK that is not enabled.
pub open spec fn disabled_vpk(name: Seq<char>) -> bool {
    plain_name(name) && vpk_name(name) && pak_number(name) is None
}

/// The contents of the variant `n` of a mod: of its disabled file where that is there, else
/// of the enabled file that goes back to that name.
pub open spec fn variant_holds(
    d: DiskView,
    b: BaseView,
    shard: nat,
    id: Seq<char>,
    installed: Seq<Seq<char>>,
    original: Seq<Seq<char>>,
    n: Seq<char>,
    node: NodeView,
) -> bool {
    let q = b.path.push(prefixed(id, n));
    if d.contains_key(q) {
        node == d[q]
    } else {
        exists|j: int|
            0 <= j < original.len() && j < installed.len() && #[trigger] original[j] == n && node
                == d[shard_dir_of(b, shard).push(base_name(installed[j]))]
    }
}

/// The variant `n` of a mod is there: disabled, or as an enabled file that goes back to that
/// name.
pub open spec fn is_variant(
    d: DiskView,
    p: PathView,
    id: Seq<char>,
    installed: Seq<Seq<char>>,
    original: Seq<Seq<char>>,
    n: Seq<char>,
) -> bool {
    prefixed_in(d, p, id, prefixed(id, n)) || (installed.len() > 0 && original.contains(n))
}

/// Once the current variant is disabled, every variant stands disabled.
proof fn lemma_all_disabled(d: DiskView, b: BaseView, s: SwapView, e: DiskView)
    requires
        rooted(d),
        d.dom().finite(),
        base_ok(b),
        s.base == b,
        sound_request(d, b, s.mod_id, s.installed, s.original, s.selected),
        current_present(d, s),
        current_disabled(d, s) == Ok::<DiskView, ErrorView>(e),
    ensures
        rooted(e),
        e.dom().finite(),
        forall|n: Seq<char>|
            is_variant(d, b.path, s.mod_id, s.installed, s.original, n) ==> {
                let q = b.path.push(#[trigger] prefixed(s.mod_id, n));
                is_file_at(e, q) && variant_holds(
                    d,
                    b,
                    s.current_shard,
                    s.mod_id,
                    s.installed,
                    s.original,
                    n,
                    e[q],
                )
            },
        forall|n: Seq<char>| #[trigger]
            e.contains_key(b.path.push(n)) ==> d.contains_key(b.path.push(n)) || is_file_at(
                e,
                b.path.push(n),
            ),
        forall|n: Seq<char>|
            #[trigger] e.contains_key(b.path.push(prefixed(s.mod_id, n))) && !d.contains_key(
                b.path.push(prefixed(s.mod_id, n)),
            ) ==> is_variant(d, b.path, s.mod_id, s.installed, s.original, n),
        forall|q: PathView| #[trigger] is_dir_at(e, q) <==> is_dir_at(d, q),
        forall|q: PathView| #[trigger]
            e.contains_key(q) ==> d.contains_key(q) || exists|j: int|
                0 <= j < s.original.len() && q == b.path.push(
                    prefixed(s.mod_id, #[trigger] s.original[j]),
                ),
        forall|q: PathView|
            is_file_at(d, q) && (forall|j: int|
                0 <= j < s.installed.len() ==> q != shard_dir_of(b, s.current_shard).push(
                    base_name(#[trigger] s.installed[j]),
                )) ==> #[trigger] same_at(d, e, q),
{
    let id = s.mod_id;
    let p = b.path;
    let from = shard_dir_of(b, s.current_shard);
    if s.installed.len() > 0 {
        let all = Seq::new(
            s.installed.len(),
            |i: int| (base_name(s.installed[i]), s.original[i]),
        );
        let pairs = disable_pairs(d, from, s.installed, s.original, MissingVpkPolicy::Strict);
        lemma_filter_all(
            all,
            |x: Pair|
                MissingVpkPolicy::Strict == MissingVpkPolicy::Strict || exists_at(
                    d,
                    path_join(from, x.0),
                ),
        );
        assert(pairs =~= all);
        lemma_shard_dir(b, 1);
        lemma_dirs_there(d, p);
        let names = file_names(s.installed);
        assert forall|i: int| 0 <= i < pairs.len() implies plain_name((#[trigger] pairs[i]).0)
            && is_file_at(d, from.push(pairs[i].0)) && plain_name(prefixed(id, pairs[i].1))
            && !is_dir_at(d, p.push(prefixed(id, pairs[i].1))) && !starts_with(
            pairs[i].0,
            id + "_"@,
        ) by {
            assert(plain_name(base_name(s.installed[i])));
            lemma_join_plain(from, base_name(s.installed[i]));
            assert(disabled_vpk(prefixed(id, s.original[i])));
        }
        assert forall|i: int, j: int| 0 <= i < j < pairs.len() implies (#[trigger] pairs[i]).0 != (
        #[trigger] pairs[j]).0 && pairs[i].1 != pairs[j].1 by {
            assert(names[i] != names[j]);
            assert(s.original[i] != s.original[j]);
        }
        lemma_each_disabled(d, from, p, id, pairs, pairs.len() as int);
        assert(e == disable_first(d, from, p, id, pairs, pairs.len() as int).work);
        assert forall|n: Seq<char>|
            is_variant(d, p, id, s.installed, s.original, n) implies {
            let q = p.push(#[trigger] prefixed(id, n));
            is_file_at(e, q) && variant_holds(
                d,
                b,
                s.current_shard,
                id,
                s.installed,
                s.original,
                n,
                e[q],
            )
        } by {
            let q = p.push(prefixed(id, n));
            if s.original.contains(n) {
                let j = choose|j: int| 0 <= j < s.original.len() && s.original[j] == n;
                assert(pairs[j].1 == n);
                assert(q == p.push(prefixed(id, pairs[j].1)));
            } else {
                assert(q.last() == prefixed(id, n));
                let pre = id + "_"@;
                assert(prefixed(id, n).take(pre.len() as int) =~= pre);
                assert forall|i: int| 0 <= i < pairs.len() implies from.push(
                    (#[trigger] pairs[i]).0,
                ) != q && p.push(prefixed(id, pairs[i].1)) != q by {
                    assert(from.push(pairs[i].0).last() == pairs[i].0);
                    let c = prefixed(id, pairs[i].1);
                    assert(p.push(c).last() == c);
                    assert(c.skip(pre.len() as int) =~= pairs[i].1);
                    assert(prefixed(id, n).skip(pre.len() as int) =~= n);
                    assert(s.original.contains(s.original[i]));
                }
                assert(same_at(d, e, q));
            }
        }
        assert forall|q: PathView| #[trigger] e.contains_key(q) && !same_at(d, e, q) implies exists|
            j: int,
        |
            0 <= j < s.original.len() && q == p.push(prefixed(id, #[trigger] s.original[j])) by {
            if forall|j: int|
                0 <= j < pairs.len() ==> q != p.push(prefixed(id, (#[trigger] pairs[j]).1)) {
                assert forall|i: int| 0 <= i < pairs.len() implies from.push(
                    (#[trigger] pairs[i]).0,
                ) != q && p.push(prefixed(id, pairs[i].1)) != q by {}
                assert(same_at(d, e, q));
            } else {
                let j = choose|j: int|
                    0 <= j < pairs.len() && q == p.push(prefixed(id, (#[trigger] pairs[j]).1));
                assert(q == p.push(prefixed(id, s.original[j])));
            }
        }
        assert forall|q: PathView| #[trigger] e.contains_key(q) implies same_at(d, e, q)
            || is_file_at(e, q) by {
            if !same_at(d, e, q) {
                let j = choose|j: int|
                    0 <= j < s.original.len() && q == p.push(prefixed(id, #[trigger] s.original[j]));
                assert(q == p.push(prefixed(id, pairs[j].1)));
            }
        }
        assert forall|q: PathView| is_dir_at(d, q) implies #[trigger] is_dir_at(e, q) by {
            assert forall|i: int| 0 <= i < pairs.len() implies from.push((#[trigger] pairs[i]).0)
                != q && p.push(prefixed(id, pairs[i].1)) != q by {}
            assert(same_at(d, e, q));
        }
        assert forall|n: Seq<char>|
            #[trigger] e.contains_key(p.push(prefixed(id, n))) && !d.contains_key(
                p.push(prefixed(id, n)),
            ) implies is_variant(d, p, id, s.installed, s.original, n) by {
            let q = p.push(prefixed(id, n));
            assert(!same_at(d, e, q));
            let j = choose|j: int|
                0 <= j < s.original.len() && q == p.push(prefixed(id, #[trigger] s.original[j]));
            let c = prefixed(id, s.original[j]);
            let pre = id + "_"@;
            assert(p.push(c).last() == c && q.last() == prefixed(id, n));
            assert(c.skip(pre.len() as int) =~= s.original[j]);
            assert(prefixed(id, n).skip(pre.len() as int) =~= n);
        }
        assert forall|q: PathView|
            is_file_at(d, q) && (forall|j: int|
                0 <= j < s.installed.len() ==> q != from.push(
                    base_name(#[trigger] s.installed[j]),
                )) implies #[trigger] same_at(d, e, q) by {
            assert forall|i: int| 0 <= i < pairs.len() implies from.push((#[trigger] pairs[i]).0)
                != q by {
                assert(pairs[i].0 == base_name(s.installed[i]));
            }
            if exists|i: int|
                0 <= i < pairs.len() && p.push(prefixed(id, (#[trigger] pairs[i]).1)) == q {
            } else {
                assert forall|i: int| 0 <= i < pairs.len() implies from.push(
                    (#[trigger] pairs[i]).0,
                ) != q && p.push(prefixed(id, pairs[i].1)) != q by {}
            }
        }
    }
}

proof fn lemma_prefix_of(id: Seq<char>, n: Seq<char>)
    ensures
        starts_with(prefixed(id, n), id + "_"@),
        prefixed(id, n).skip((id + "_"@).len() as int) == n,
{
    let pre = id + "_"@;
    assert(prefixed(id, n).take(pre.len() as int) =~= pre);
    assert(prefixed(id, n).skip(pre.len() as int) =~= n);
}

/// What holds once another variant of a mod is enabled and recorded in shard `target`,
/// under the names `out`.
pub open spec fn variant_stands(
    d: DiskView,
    e: DiskView,
    b: BaseView,
    m: ManifestView,
    id: Seq<char>,
    installed: Seq<Seq<char>>,
    original: Seq<Seq<char>>,
    selected: Seq<Seq<char>>,
    target: nat,
    out: Seq<Seq<char>>,
) -> bool {
    let p = b.path;
    let dir = shard_dir_of(b, target);
    let shard = shard_of_mod(m, id);
    &&& out.len() == selected.len()
    &&& out.no_duplicates()
    &&& forall|i: int|
        0 <= i < out.len() ==> {
            let q = dir.push(#[trigger] out[i]);
            &&& plain_name(out[i])
            &&& pak_number(out[i]) is Some
            &&& is_file_at(e, q)
            &&& variant_holds(d, b, shard, id, installed, original, selected[i], e[q])
        }
    &&& forall|n: Seq<char>|
        is_variant(d, p, id, installed, original, n) && !selected.contains(n) ==> {
            let q = p.push(#[trigger] prefixed(id, n));
            is_file_at(e, q) && variant_holds(d, b, shard, id, installed, original, n, e[q])
        }
    &&& forall|n: Seq<char>|
        is_file_at(e, p.push(#[trigger] prefixed(id, n))) && vpk_name(prefixed(id, n)) && pak_number(
            prefixed(id, n),
        ) is None ==> is_variant(d, p, id, installed, original, n) && !selected.contains(n)
    &&& forall|i: int|
        0 <= i < selected.len() ==> is_variant(
            d,
            p,
            id,
            installed,
            original,
            #[trigger] selected[i],
        )
}

/// Enabling another variant.
proof fn lemma_variant_enabled(
    d: DiskView,
    b: BaseView,
    m: ManifestView,
    id: Seq<char>,
    installed: Seq<Seq<char>>,
    original: Seq<Seq<char>>,
    selected: Seq<Seq<char>>,
    e: DiskView,
) -> (r: (nat, Seq<Seq<char>>))
    requires
        rooted(d),
        d.dom().finite(),
        base_ok(b),
        sound_request(d, b, id, installed, original, selected),
        variant_enabled(d, b, m, id, installed, original, selected) == Ok::<DiskView, ErrorView>(e),
        valid_shard(shard_of_mod(m, id)),
    ensures
        valid_shard(r.0),
        variant_stands(d, e, b, m, id, installed, original, selected, r.0, r.1),
        rooted(e),
        e.dom().finite(),
        is_dir_at(e, b.path),
        e.contains_key(manifest_path(b.path)),
        e[manifest_path(b.path)] == fresh_manifest(
            marked_enabled(m, id, r.1, selected, None, r.0),
        ),
        !exists_at(e, manifest_temp_path(b.path)),
        plain_tree(e),
        forall|q: PathView| #[trigger] is_dir_at(e, q) && q.len() > b.path.len() ==> is_dir_at(d, q),
{
    let p = b.path;
    let main = manifest_path(p);
    let temp = manifest_temp_path(p);
    let shard = shard_of_mod(m, id);
    let target = chosen_shard(d, b, Some((shard, installed.len())), selected.len())->Ok_0;
    lemma_last_active(d, b, MAX_SHARDS as nat);
    let s = variant_swap(b, m, id, installed, original, selected, target);
    let (work, out) = swapped(d, s)->Ok_0;
    let d1 = current_disabled(d, s)->Ok_0;
    let dir = shard_dir_of(b, target);
    let names = selected_names(s);
    let m1 = marked_enabled(m, id, out, selected, None, target);
    lemma_all_disabled(d, b, s, d1);
    lemma_shard_dir(b, 1);
    lemma_shard_dir(b, target);
    lemma_saved(work, p, m1);
    // Every selected variant is there.
    assert forall|i: int| 0 <= i < selected.len() implies is_variant(
        d,
        p,
        id,
        installed,
        original,
        #[trigger] selected[i],
    ) && is_file_at(d1, p.push(names[i])) by {
        let x = prefixed(id, selected[i]);
        assert(names[i] == x);
        assert(disabled_vpk(x));
        lemma_join_plain(p, x);
        assert(exists_at(d1, path_join(p, names[i])));
        lemma_prefix_of(id, selected[i]);
        if d.contains_key(p.push(x)) {
            assert(!is_dir_at(d, p.push(x)));
        }
        assert(is_variant(d, p, id, installed, original, selected[i]));
        assert(is_file_at(d1, p.push(prefixed(id, selected[i]))));
    }
    assert(names.no_duplicates()) by {
        assert forall|i: int, j: int|
            0 <= i < names.len() && 0 <= j < names.len() && i != j implies names[i] != names[j] by {
            lemma_prefix_of(id, selected[i]);
            lemma_prefix_of(id, selected[j]);
            assert(names[i] == prefixed(id, selected[i]));
            assert(names[j] == prefixed(id, selected[j]));
            assert(selected[i] != selected[j]);
        }
    }
    assert(can_be_enabled(d1, p, names)) by {
        assert forall|i: int| 0 <= i < names.len() implies plain_name(#[trigger] names[i])
            && pak_number(names[i]) is None && is_file_at(d1, p.push(names[i])) by {
            assert(disabled_vpk(prefixed(id, selected[i])));
            assert(is_variant(d, p, id, installed, original, selected[i]));
        }
    }
    let base = if selected.len() > 0 {
        ready(d1, p, dir)
    } else {
        d1
    };
    assert(rooted(work) && work.dom().finite()) by {
        if names.len() > 0 {
            law_enabling_moves_each_file(d1, p, dir, id, names);
        }
    }
    if names.len() > 0 {
        law_enabling_moves_each_file(d1, p, dir, id, names);
    } else {
        assert(out =~= Seq::<Seq<char>>::empty());
        assert(places(p, names) =~= Seq::<PathView>::empty());
        assert(places(dir, out) =~= Seq::<PathView>::empty());
    }
    lemma_save_keeps(work, p, m1);
    let from = places(p, names);
    let to = places(dir, out);
    assert(is_dir_at(work, p)) by {
        assert forall|i: int| 0 <= i < from.len() implies #[trigger] from[i] != p by {
            assert(from[i].len() == p.len() + 1);
        }
        assert forall|i: int| 0 <= i < to.len() implies #[trigger] to[i] != p by {
            assert(to[i].len() == p.len() + 1);
        }
        assert(is_dir_at(d1, p));
        assert(same_at(base, work, p));
    }
    lemma_dirs_there(work, p);
    assert forall|i: int| 0 <= i < out.len() implies plain_name(#[trigger] out[i]) && pak_number(
        out[i],
    ) is Some && to[i] == dir.push(out[i]) && out[i] != MANIFEST_FILENAME@ && out[i]
        != MANIFEST_TEMP_FILENAME@ by {
        let k = choose|k: nat| 1 <= k <= SHARD_CAPACITY && out[i] == #[trigger] pak_name(k);
        lemma_pak_plain(k);
        law_enabled_names_round_trip(k);
        lemma_pak_is_own(k);
    }
    // What stands in the profile stands as it did once the current variant was disabled.
    assert forall|q: PathView|
        #![trigger same_at(d1, e, q)]
        q.len() == p.len() + 1 && !from.contains(q) && !to.contains(q) && q != main && q
            != temp implies same_at(d1, e, q) by {
        assert(same_at(base, work, q));
        assert(!q.is_prefix_of(dir));
        assert(!q.is_prefix_of(p));
    }
    assert(main.last() == MANIFEST_FILENAME@ && temp.last() == MANIFEST_TEMP_FILENAME@);
    assert forall|n: Seq<char>| vpk_name(prefixed(id, n)) implies p.push(
        #[trigger] prefixed(id, n),
    ) != main && p.push(prefixed(id, n)) != temp by {
        lemma_not_the_manifest(prefixed(id, n));
        assert(p.push(prefixed(id, n)).last() == prefixed(id, n));
    }
    assert forall|i: int| 0 <= i < out.len() implies {
        let q = dir.push(#[trigger] out[i]);
        &&& is_file_at(e, q)
        &&& variant_holds(d, b, shard, id, installed, original, selected[i], e[q])
    } by {
        let q = dir.push(out[i]);
        assert(q.last() == out[i]);
        assert(work[q] == d1[p.push(names[i])]);
        assert(is_variant(d, p, id, installed, original, selected[i]));
        assert(names[i] == prefixed(id, selected[i]));
        assert(q != main && q != temp);
        assert(!q.is_prefix_of(p));
        assert(e.contains_key(q) && e[q] == work[q]);
    }
    assert forall|n: Seq<char>|
        is_variant(d, p, id, installed, original, n) && !selected.contains(n) implies {
        let q = p.push(#[trigger] prefixed(id, n));
        is_file_at(e, q) && variant_holds(d, b, shard, id, installed, original, n, e[q])
    } by {
        let x = prefixed(id, n);
        let q = p.push(x);
        lemma_prefix_of(id, n);
        assert(is_file_at(d1, q));
        assert(q.last() == x);
        assert(vpk_name(x)) by {
            if installed.len() > 0 && original.contains(n) {
                let j = choose|j: int| 0 <= j < original.len() && original[j] == n;
                assert(disabled_vpk(prefixed(id, original[j])));
            }
        }
        assert(!from.contains(q)) by {
            if from.contains(q) {
                let i = choose|i: int| 0 <= i < from.len() && from[i] == q;
                assert(from[i].last() == names[i]);
                lemma_prefix_of(id, selected[i]);
                assert(selected.contains(selected[i]));
            }
        }
        assert(!to.contains(q)) by {
            if to.contains(q) {
                let i = choose|i: int| 0 <= i < to.len() && to[i] == q;
                assert(!exists_at(d1, dir.push(out[i])));
            }
        }
        assert(same_at(d1, e, q));
    }
    assert forall|n: Seq<char>|
        is_file_at(e, p.push(#[trigger] prefixed(id, n))) && vpk_name(prefixed(id, n)) && pak_number(
            prefixed(id, n),
        ) is None implies is_variant(d, p, id, installed, original, n) && !selected.contains(n) by {
        let x = prefixed(id, n);
        let q = p.push(x);
        lemma_prefix_of(id, n);
        assert(q.last() == x);
        assert(!to.contains(q)) by {
            if to.contains(q) {
                let i = choose|i: int| 0 <= i < to.len() && to[i] == q;
                assert(to[i].last() == out[i]);
            }
        }
        assert(!from.contains(q)) by {
            if from.contains(q) {
                let i = choose|i: int| 0 <= i < from.len() && from[i] == q;
                assert(!exists_at(work, p.push(names[i])));
                assert(from[i] == p.push(names[i]));
                assert(!q.is_prefix_of(p));
                assert(!e.contains_key(q));
            }
        }
        assert(same_at(d1, e, q));
        assert(is_file_at(d1, q));
        if d.contains_key(q) {
            assert(!is_dir_at(d, q));
            assert(is_variant(d, p, id, installed, original, n));
        }
        if selected.contains(n) {
            let i = choose|i: int| 0 <= i < selected.len() && selected[i] == n;
            assert(from[i] == q);
            assert(from.contains(q));
        }
    }
    assert forall|q: PathView| #[trigger] is_dir_at(e, q) && q.len() > p.len() implies is_dir_at(
        d,
        q,
    ) by {
        assert(q != main);
        assert(work.contains_key(q) && work[q] == e[q]);
        if to.contains(q) {
            let i = choose|i: int| 0 <= i < to.len() && to[i] == q;
            assert(work[dir.push(out[i])] == d1[p.push(names[i])]);
        } else {
            assert(!from.contains(q)) by {
                if from.contains(q) {
                    let i = choose|i: int| 0 <= i < from.len() && from[i] == q;
                    assert(!exists_at(work, p.push(names[i])));
                }
            }
            assert(same_at(base, work, q));
            assert(is_dir_at(d1, q));
        }
    }
    assert(is_dir_at(e, p)) by {
        lemma_rooted_at(e, main);
        assert(main.drop_last() =~= p);
    }
    assert(plain_tree(e)) by {
        reveal_strlit(".dmm.json");
        reveal_strlit(".");
        reveal_strlit("..");
        assert forall|q: PathView| #[trigger] e.contains_key(q) implies plain_name(q.last()) by {
            if q == main {
                assert(MANIFEST_FILENAME@.len() == 9);
                assert(!MANIFEST_FILENAME@.contains('/'));
            } else if to.contains(q) {
                let i = choose|i: int| 0 <= i < to.len() && to[i] == q;
                assert(plain_name(out[i]));
            } else {
                assert(work.contains_key(q));
                if !from.contains(q) {
                    assert(same_at(base, work, q));
                    if d1.contains_key(q) {
                        if !d.contains_key(q) {
                            let j = choose|j: int|
                                0 <= j < original.len() && q == p.push(
                                    prefixed(id, #[trigger] original[j]),
                                );
                            assert(disabled_vpk(prefixed(id, original[j])));
                        }
                    } else {
                        lemma_new_dirs_plain(d1, b, target, q);
                    }
                }
            }
        }
    }
    (target, out)
}

// ---------------------------------------------------------------------------
// The law
// ---------------------------------------------------------------------------

/// A profile in which a variant can be changed: nothing is left over from an interrupted
/// operation, and what the manifest records are files of one name each.
pub open spec fn settled_profile(d: DiskView, b: BaseView, m: ManifestView) -> bool {
    &&& rooted(d)
    &&& d.dom().finite()
    &&& nothing_staged(d, b.path)
    &&& m.mods.dom().finite()
    &&& records_files(d, b, m)
}

proof fn lemma_ready_to_reorder(
    d: DiskView,
    b: BaseView,
    m: ManifestView,
    id: Seq<char>,
    installed: Seq<Seq<char>>,
    original: Seq<Seq<char>>,
    selected: Seq<Seq<char>>,
    e: DiskView,
    target: nat,
    out: Seq<Seq<char>>,
)
    requires
        settled_profile(d, b, m),
        base_ok(b),
        base_of(b.path, false) is Some,
        m.version == CURRENT_MANIFEST_VERSION,
        valid_shard(target),
        variant_stands(d, e, b, m, id, installed, original, selected, target, out),
        rooted(e),
        e.dom().finite(),
        is_dir_at(e, b.path),
        e.contains_key(manifest_path(b.path)),
        e[manifest_path(b.path)] == fresh_manifest(
            marked_enabled(m, id, out, selected, None, target),
        ),
        !exists_at(e, manifest_temp_path(b.path)),
        forall|q: PathView| #[trigger] is_dir_at(e, q) && q.len() > b.path.len() ==> is_dir_at(d, q),
    ensures
        ({
            let m1 = marked_enabled(m, id, out, selected, None, target);
            &&& nothing_staged(e, b.path)
            &&& loaded(e, b.path) == (e, Ok::<ManifestView, ErrorView>(m1))
            &&& records_files(e, b, m1)
            &&& m1.mods.dom().finite()
            &&& forall|name: Seq<char>| #[trigger]
                recorded_name(m1, name) ==> pak_number(name) is Some || recorded_name(m, name)
        }),
{
    let p = b.path;
    let m1 = marked_enabled(m, id, out, selected, None, target);
    assert(nothing_staged(e, p)) by {
        lemma_finite_has_order::<TreePath, NodeView>(d);
        lemma_names_in(d, p);
        assert forall|name: Seq<char>| #[trigger] is_dir_at(e, p.push(name)) implies is_dir_at(
            d,
            p.push(name),
        ) && names_in(d, p).contains(name) by {
            assert(p.push(name).len() > p.len());
        }
    }
    lemma_clean_read(e, p, m1);
    assert(m1.mods.dom() =~= m.mods.dom().insert(id));
    assert(records_files(e, b, m1)) by {
        assert forall|x: Seq<char>| #[trigger] m1.mods.contains_key(x) implies valid_shard(
            m1.mods[x].shard,
        ) by {
            if x != id {
                assert(m.mods.contains_key(x));
            }
        }
        assert forall|x: Seq<char>, i: int|
            m1.mods.contains_key(x) && 0 <= i < m1.mods[x].current.len() implies plain_name(
            base_name(#[trigger] m1.mods[x].current[i]),
        ) && !is_dir_at(
            e,
            shard_dir_of(b, m1.mods[x].shard).push(base_name(m1.mods[x].current[i])),
        ) by {
            let v = m1.mods[x].current[i];
            if x == id {
                assert(v == out[i]);
                lemma_own_name(v);
                assert(base_name(v) == v);
                assert(is_file_at(e, shard_dir_of(b, target).push(out[i])));
            } else {
                assert(m.mods.contains_key(x));
                assert(v == m.mods[x].current[i]);
                assert(valid_shard(m.mods[x].shard));
                lemma_shard_dir(b, m.mods[x].shard);
                let q = shard_dir_of(b, m.mods[x].shard).push(base_name(v));
                assert(q.len() > p.len());
            }
        }
    }
    assert forall|name: Seq<char>| #[trigger] recorded_name(m1, name) implies pak_number(name)
        is Some || recorded_name(m, name) by {
        let (x, i) = choose|x: Seq<char>, i: int|
            m1.mods.contains_key(x) && 0 <= i < m1.mods[x].current.len() && base_name(
                #[trigger] m1.mods[x].current[i],
            ) == name;
        if x == id {
            assert(m1.mods[x].current[i] == out[i]);
            lemma_own_name(out[i]);
        } else {
            assert(base_name(m.mods[x].current[i]) == name);
        }
    }
}

/// Changing the variant of a mod enables the files selected, with the contents they had,
/// and leaves every other variant disabled, with the contents it had; it is recorded so. The
/// file tree that is returned, and kept with the mod, offers every variant that was there,
/// be it selected or not, and no other; it has chosen those selected, and no other.
pub proof fn law_every_variant_stays_on_offer(
    d: DiskView,
    m: ManagerView,
    id: Seq<char>,
    folder: Option<Seq<char>>,
    installed: Seq<Seq<char>>,
    original: Seq<Seq<char>>,
    selected: Seq<Seq<char>>,
)
    requires
        rooted(d),
        d.dom().finite(),
        variant_applied(d, m, id, folder, installed, original, selected).2 is Ok,
        selected.len() > 0,
        ({
            let b = profile_base(m.game_path, folder)->Ok_0;
            let (d1, l) = loaded(d, b.path);
            &&& settled_profile(d1, b, l->Ok_0)
            &&& sound_request(d1, b, id, installed, original, selected)
        }),
    ensures
        ({
            let b = profile_base(m.game_path, folder)->Ok_0;
            let p = b.path;
            let (d1, l) = loaded(d, p);
            let before = l->Ok_0;
            let shard = shard_of_mod(before, id);
            let (e, repo, r) = variant_applied(d, m, id, folder, installed, original, selected);
            let v = r->Ok_0;
            let after = mods_on_record(e, p);
            let dir = shard_dir_of(b, after[id].shard);
            &&& chooses(v.file_tree, selected)
            &&& forall|n: Seq<char>|
                #![trigger offers(v.file_tree, n)]
                pak_number(prefixed(id, n)) is None ==> (offers(v.file_tree, n) <==> is_variant(
                    d1,
                    p,
                    id,
                    installed,
                    original,
                    n,
                ))
            &&& forall|n: Seq<char>|
                is_file_at(e, p.push(#[trigger] prefixed(id, n))) && vpk_name(prefixed(id, n))
                    && pak_number(prefixed(id, n)) is None ==> offers(v.file_tree, n)
                    && !selected.contains(n)
            &&& v.original == selected
            &&& after.contains_key(id)
            &&& after[id].enabled
            &&& after[id].original == selected
            &&& after[id].current == v.installed
            &&& before.mods.contains_key(id) ==> after[id].order == before.mods[id].order
            &&& v.installed.len() == selected.len()
            &&& forall|i: int|
                0 <= i < selected.len() ==> {
                    let q = dir.push(#[trigger] v.installed[i]);
                    e.contains_key(q) && variant_holds(
                        d1,
                        b,
                        shard,
                        id,
                        installed,
                        original,
                        selected[i],
                        e[q],
                    )
                }
            &&& forall|n: Seq<char>|
                is_variant(d1, p, id, installed, original, n) && !selected.contains(n)
                    && pak_number(prefixed(id, n)) is None && !recorded_name(
                    before,
                    prefixed(id, n),
                ) ==> {
                    let q = p.push(#[trigger] prefixed(id, n));
                    e.contains_key(q) && variant_holds(
                        d1,
                        b,
                        shard,
                        id,
                        installed,
                        original,
                        n,
                        e[q],
                    )
                }
            &&& known_by_id(m.repo) && m.repo.contains_key(id) ==> repo.contains_key(id) && repo[id]
                == (ModView {
                installed: v.installed,
                original: selected,
                file_tree: Some(v.file_tree),
                ..m.repo[id]
            })
        }),
{
    let b = profile_base(m.game_path, folder)->Ok_0;
    let p = b.path;
    lemma_base_of_profile(m, folder, b);
    let (d1, l) = loaded(d, p);
    let before = l->Ok_0;
    let shard = shard_of_mod(before, id);
    if before.mods.contains_key(id) {
        assert(valid_shard(before.mods[id].shard));
    }
    let d2 = variant_enabled(d1, b, before, id, installed, original, selected)->Ok_0;
    let (target, out) = lemma_variant_enabled(
        d1,
        b,
        before,
        id,
        installed,
        original,
        selected,
        d2,
    );
    lemma_ready_to_reorder(
        d1,
        b,
        before,
        id,
        installed,
        original,
        selected,
        d2,
        target,
        out,
    );
    let m1 = marked_enabled(before, id, out, selected, None, target);
    let dir = shard_dir_of(b, target);
    let (e, repo, r) = variant_applied(d, m, id, folder, installed, original, selected);
    let v = r->Ok_0;
    assert forall|i: int| 0 <= i < m1.mods[id].current.len() implies plain_name(
        #[trigger] m1.mods[id].current[i],
    ) && exists_at(d2, dir.push(m1.mods[id].current[i])) by {
        assert(m1.mods[id].current[i] == out[i]);
    }
    let g = lemma_own_group(d2, b, m1, id);
    let m2 = all_reconciled(d2, b, m1);
    let groups = ordered_groups(m2);
    let placements = reorder_committed(d2, p, m.repo, m2, groups).2->Ok_0;
    assert(!exists_at(d2, p.push(REORDER_STAGING_DIR@)));
    assert(reordering(d2, b, m1, id, m.repo, placements));
    lemma_recorded_after(d2, b, m1, id, m.repo, placements);
    let f = left_by(d2, b, m1, m.repo);
    let after = loaded(f, p).1->Ok_0;
    let entry = after.mods[id];
    assert(profile_reordered(d2, m, folder).0 == f);
    assert(e == f);
    lemma_manifest_outside(p);
    assert(mods_on_record(e, p) == after.mods);
    // What is found.
    let found = prefixed_found(d2, p, id)->Ok_0;
    lemma_found(d2, p, id);
    assert forall|i: int| 0 <= i < found.len() implies starts_with(#[trigger] found[i], id + "_"@) by {
        assert(found.contains(found[i]));
    }
    lemma_offered(id, selected, found);
    assert forall|n: Seq<char>|
        #![trigger offers(v.file_tree, n)]
        pak_number(prefixed(id, n)) is None implies (offers(v.file_tree, n) <==> is_variant(
        d1,
        p,
        id,
        installed,
        original,
        n,
    )) by {
        let x = prefixed(id, n);
        lemma_prefix_of(id, n);
        if selected.contains(n) {
            let i = choose|i: int| 0 <= i < selected.len() && selected[i] == n;
            assert(is_variant(d1, p, id, installed, original, selected[i]));
        } else if is_variant(d1, p, id, installed, original, n) {
            if installed.len() > 0 && original.contains(n) {
                let j = choose|j: int| 0 <= j < original.len() && original[j] == n;
                assert(disabled_vpk(prefixed(id, original[j])));
            }
            assert(is_file_at(d2, p.push(x)));
            assert(prefixed_in(d2, p, id, x));
            assert(found.contains(x));
        } else if offers(v.file_tree, n) {
            assert(found.contains(x));
            assert(prefixed_in(d2, p, id, x));
            assert(is_file_at(d2, p.push(x)));
        }
    }
    assert forall|n: Seq<char>|
        is_file_at(e, p.push(#[trigger] prefixed(id, n))) && vpk_name(prefixed(id, n))
            && pak_number(prefixed(id, n)) is None implies offers(v.file_tree, n)
        && !selected.contains(n) by {
        let x = prefixed(id, n);
        lemma_prefix_of(id, n);
        if !d2.contains_key(p.push(x)) {
            lemma_still_free(d2, b, m1, id, m.repo, placements, x);
        }
        assert(p.push(x).len() > p.len());
        if is_dir_at(d2, p.push(x)) {
            assert(is_dir_at(d1, p.push(x)));
        }
        assert(is_file_at(d2, p.push(x)));
        assert(prefixed_in(d2, p, id, x));
        assert(found.contains(x));
    }
    assert forall|i: int| 0 <= i < selected.len() implies {
        let q = shard_dir_of(b, entry.shard).push(#[trigger] v.installed[i]);
        e.contains_key(q) && variant_holds(
            d1,
            b,
            shard,
            id,
            installed,
            original,
            selected[i],
            e[q],
        )
    } by {
        assert(v.installed[i] == entry.current[i]);
        assert(m1.mods[id].current[i] == out[i]);
        assert(is_file_at(d2, dir.push(out[i])));
    }
    assert forall|n: Seq<char>|
        is_variant(d1, p, id, installed, original, n) && !selected.contains(n) && pak_number(
            prefixed(id, n),
        ) is None && !recorded_name(before, prefixed(id, n)) implies {
        let q = p.push(#[trigger] prefixed(id, n));
        e.contains_key(q) && variant_holds(d1, b, shard, id, installed, original, n, e[q])
    } by {
        let x = prefixed(id, n);
        let q = p.push(x);
        lemma_prefix_of(id, n);
        assert(vpk_name(x)) by {
            if installed.len() > 0 && original.contains(n) {
                let j = choose|j: int| 0 <= j < original.len() && original[j] == n;
                assert(disabled_vpk(prefixed(id, original[j])));
            }
        }
        assert(is_file_at(d2, q));
        assert(q.last() == x);
        lemma_not_the_manifest(x);
        assert(manifest_path(p).last() == MANIFEST_FILENAME@);
        assert(manifest_temp_path(p).last() == MANIFEST_TEMP_FILENAME@);
        assert(!recorded_name(m1, x));
        lemma_stays(d2, b, m1, id, m.repo, placements, q);
    }
    if known_by_id(m.repo) && m.repo.contains_key(id) {
        let staged = reorder_staged(d2, p, groups);
        lemma_placed_in_order(staged.0, b, groups, staged.1->Ok_0.0, placements);
        assert forall|a: int, c: int| 0 <= a < c < placements.len() implies (
        #[trigger] placements[a]).mod_id != (#[trigger] placements[c]).mod_id by {
            assert(placements[a].mod_id == groups[a].mod_id);
            assert(placements[c].mod_id == groups[c].mod_id);
        }
        lemma_repo_placed(m.repo, placements, placements.len() as int);
        assert(placements[g].mod_id == id);
        let r1 = repo_placed(m.repo, placements, placements.len() as int);
        assert(r1.dom().contains(id));
        assert(r1[id].id == id);
    }
}

} // verus!
