//! Replacing and copying files takes each file to its own place.
use super::copying::{
    all_copied, chosen_copied, chosen_source, copied_prefixed, copy_chosen_first, copy_first,
    find_relative, relative_text, replace_first, replaced_vpks, vpks_below,
};
use super::operations::{file_names, prefixed, prefixed_in, prefixed_names};
use super::setting_aside::plain_tree;
use crate::disk::{
    all_paths, is_below, is_file_at, law_changes_keep_the_tree_rooted, lemma_filter_members,
    lemma_names_in, names_in, paths_below, rooted, same_at, DiskView, NodeView, OpView,
};
use crate::error::ErrorView;
use crate::file_tree::FileView;
use crate::path::{base_name, lemma_join_plain, path_join, plain_name, vpk_name, PathView, TreePath};
use crate::table::lemma_finite_has_order;
use crate::text::replaced;
use vstd::prelude::*;

verus! {

// ---------------------------------------------------------------------------
// Replacing
// ---------------------------------------------------------------------------

/// Files that replace others: as many as these, no place twice, and none of them stands at
/// a place that is written over.
pub open spec fn one_for_one(sources: Seq<PathView>, targets: Seq<PathView>) -> bool {
    &&& sources.len() == targets.len()
    &&& targets.no_duplicates()
    &&& forall|i: int, j: int|
        0 <= i < sources.len() && 0 <= j < targets.len() ==> #[trigger] sources[i]
            != #[trigger] targets[j]
}

/// Each place at which something stood holds what its own source held, and everything
/// else is as it was.
pub open spec fn taken_over(
    d: DiskView,
    e: DiskView,
    sources: Seq<PathView>,
    targets: Seq<PathView>,
) -> bool {
    &&& forall|i: int|
        0 <= i < targets.len() && d.contains_key(#[trigger] targets[i]) ==> {
            &&& is_file_at(d, sources[i])
            &&& e.contains_key(targets[i])
            &&& e[targets[i]].body == d[sources[i]].body
        }
    &&& forall|i: int|
        0 <= i < targets.len() && !d.contains_key(#[trigger] targets[i]) ==> !e.contains_key(
            targets[i],
        )
    &&& forall|q: PathView| !targets.contains(q) ==> #[trigger] same_at(d, e, q)
}

proof fn lemma_replace_first(
    d: DiskView,
    dir: PathView,
    sources: Seq<PathView>,
    names: Seq<Seq<char>>,
    k: int,
)
    requires
        rooted(d),
        d.dom().finite(),
        one_for_one(sources, names.map_values(|n: Seq<char>| path_join(dir, n))),
        0 <= k <= sources.len(),
        replace_first(d, dir, sources, names, k).1 is Ok,
    ensures
        ({
            let e = replace_first(d, dir, sources, names, k).0;
            let targets = names.map_values(|n: Seq<char>| path_join(dir, n));
            &&& rooted(e)
            &&& e.dom().finite()
            &&& forall|i: int|
                0 <= i < k && d.contains_key(#[trigger] targets[i]) ==> {
                    &&& is_file_at(d, sources[i])
                    &&& e.contains_key(targets[i])
                    &&& e[targets[i]].body == d[sources[i]].body
                }
            &&& forall|i: int|
                0 <= i < targets.len() && !d.contains_key(#[trigger] targets[i])
                    ==> !e.contains_key(targets[i])
            &&& forall|q: PathView|
                (forall|i: int| 0 <= i < k ==> #[trigger] targets[i] != q) ==> #[trigger] same_at(
                    d,
                    e,
                    q,
                )
        }),
    decreases k,
{
    let targets = names.map_values(|n: Seq<char>| path_join(dir, n));
    if k > 0 {
        lemma_replace_first(d, dir, sources, names, k - 1);
        let was = replace_first(d, dir, sources, names, k - 1).0;
        let e = replace_first(d, dir, sources, names, k).0;
        let t = targets[k - 1];
        assert forall|i: int| 0 <= i < k - 1 implies #[trigger] targets[i] != t by {}
        assert(same_at(d, was, t));
        assert forall|i: int| 0 <= i < k - 1 implies #[trigger] targets[i] != sources[k - 1] by {
            assert(sources[k - 1] != targets[i]);
        }
        assert(same_at(d, was, sources[k - 1]));
        if d.contains_key(t) {
            law_changes_keep_the_tree_rooted(was, OpView::Copy(sources[k - 1], t));
        }
        assert forall|i: int| 0 <= i < k && d.contains_key(#[trigger] targets[i]) implies {
            &&& is_file_at(d, sources[i])
            &&& e.contains_key(targets[i])
            &&& e[targets[i]].body == d[sources[i]].body
        } by {
            if i < k - 1 {
                assert(targets[i] != t);
            }
        }
        assert forall|q: PathView|
            (forall|i: int| 0 <= i < k ==> #[trigger] targets[i] != q) implies #[trigger] same_at(
            d,
            e,
            q,
        ) by {
            assert(targets[k - 1] != q);
            assert(same_at(d, was, q));
        }
    }
}

proof fn lemma_replaced(d: DiskView, dir: PathView, sources: Seq<PathView>, names: Seq<Seq<char>>)
    requires
        rooted(d),
        d.dom().finite(),
        one_for_one(sources, names.map_values(|n: Seq<char>| path_join(dir, n))),
        replace_first(d, dir, sources, names, sources.len() as int).1 is Ok,
    ensures
        ({
            let e = replace_first(d, dir, sources, names, sources.len() as int).0;
            let targets = names.map_values(|n: Seq<char>| path_join(dir, n));
            taken_over(d, e, sources, targets) && rooted(e) && e.dom().finite()
        }),
{
    lemma_replace_first(d, dir, sources, names, sources.len() as int);
    let e = replace_first(d, dir, sources, names, sources.len() as int).0;
    let targets = names.map_values(|n: Seq<char>| path_join(dir, n));
    assert forall|q: PathView| !targets.contains(q) implies #[trigger] same_at(d, e, q) by {
        assert forall|i: int| 0 <= i < sources.len() implies #[trigger] targets[i] != q by {
            assert(targets.contains(targets[i]));
        }
    }
}

/// Where the enabled files of a mod stand.
pub open spec fn enabled_places(dir: PathView, installed: Seq<Seq<char>>) -> Seq<PathView> {
    installed.map_values(|v: Seq<char>| path_join(dir, base_name(v)))
}

/// Replacing the files of an enabled mod succeeds only for as many files as it has, and
/// gives each enabled file the contents of its own source. No other file is touched.
pub proof fn law_enabled_files_are_replaced_one_for_one(
    d: DiskView,
    base: PathView,
    dir: PathView,
    id: Seq<char>,
    sources: Seq<PathView>,
    installed: Seq<Seq<char>>,
)
    requires
        rooted(d),
        d.dom().finite(),
        installed.len() > 0,
        replaced_vpks(d, base, dir, id, sources, installed).1 is Ok,
    ensures
        sources.len() == installed.len(),
        one_for_one(sources, enabled_places(dir, installed)) ==> {
            let e = replaced_vpks(d, base, dir, id, sources, installed).0;
            taken_over(d, e, sources, enabled_places(dir, installed)) && rooted(e)
                && e.dom().finite()
        },
{
    let names = file_names(installed);
    assert(names.map_values(|n: Seq<char>| path_join(dir, n)) =~= enabled_places(dir, installed));
    if one_for_one(sources, enabled_places(dir, installed)) {
        lemma_replaced(d, dir, sources, names);
    }
}

/// Replacing the files of a mod that is not enabled succeeds only for as many files as
/// stand disabled in the base, and gives each of these, in the order of their names, the
/// contents of its own source. No other file is touched.
pub proof fn law_disabled_files_are_replaced_one_for_one(
    d: DiskView,
    base: PathView,
    dir: PathView,
    id: Seq<char>,
    sources: Seq<PathView>,
)
    requires
        rooted(d),
        d.dom().finite(),
        plain_tree(d),
        replaced_vpks(d, base, dir, id, sources, Seq::empty()).1 is Ok,
    ensures
        ({
            let e = replaced_vpks(d, base, dir, id, sources, Seq::empty()).0;
            let names = prefixed_names(d, base, id);
            let targets = names.map_values(|n: Seq<char>| base.push(n));
            &&& sources.len() == names.len()
            &&& one_for_one(sources, targets) ==> taken_over(d, e, sources, targets) && rooted(e)
                && e.dom().finite()
        }),
{
    let names = prefixed_names(d, base, id);
    let targets = names.map_values(|n: Seq<char>| base.push(n));
    lemma_finite_has_order::<TreePath, NodeView>(d);
    lemma_names_in(d, base);
    lemma_filter_members(names_in(d, base), |n: Seq<char>| prefixed_in(d, base, id, n));
    assert(names.map_values(|n: Seq<char>| path_join(base, n)) =~= targets) by {
        assert forall|i: int| 0 <= i < names.len() implies path_join(base, #[trigger] names[i])
            == base.push(names[i]) by {
            assert(names.contains(names[i]));
            assert(d.contains_key(base.push(names[i])));
            assert(plain_name(base.push(names[i]).last()));
            lemma_join_plain(base, names[i]);
        }
    }
    if one_for_one(sources, targets) {
        lemma_replaced(d, base, sources, names);
    }
}

// ---------------------------------------------------------------------------
// Copying
// ---------------------------------------------------------------------------

/// A VPK file below a directory.
pub open spec fn vpk_below(d: DiskView, from: PathView, s: PathView) -> bool {
    is_below(from, s) && is_file_at(d, s) && vpk_name(s.last())
}

/// Where the copy of a file goes: under its name behind the id of the mod and a mark.
pub open spec fn copy_place(to: PathView, id: Seq<char>, s: PathView) -> PathView {
    to.push(id + "_"@ + s.last())
}

/// The name of the copy of a file.
pub open spec fn is_copy_name(id: Seq<char>, s: PathView, name: Seq<char>) -> bool {
    name == id + "_"@ + s.last()
}

/// The name of a copy of some VPK file below a directory.
pub open spec fn names_a_copy(d: DiskView, from: PathView, id: Seq<char>, name: Seq<char>) -> bool {
    exists|s: PathView| #[trigger] vpk_below(d, from, s) && is_copy_name(id, s, name)
}

/// No two VPK files below a directory have one name.
pub open spec fn own_names(d: DiskView, from: PathView) -> bool {
    forall|s: PathView, t: PathView|
        #[trigger] vpk_below(d, from, s) && #[trigger] vpk_below(d, from, t) && s.last() == t.last()
            ==> s == t
}

/// Files that are copied from below one directory into another that does not lie there.
pub open spec fn can_be_copied(d: DiskView, from: PathView, to: PathView, id: Seq<char>) -> bool {
    &&& d.dom().finite()
    &&& plain_tree(d)
    &&& !id.contains('/')
    &&& own_names(d, from)
    &&& !from.is_prefix_of(to)
}

proof fn lemma_vpks_below(d: DiskView, from: PathView)
    requires
        d.dom().finite(),
    ensures
        forall|s: PathView| #[trigger] vpks_below(d, from).contains(s) <==> vpk_below(d, from, s),
{
    lemma_finite_has_order::<TreePath, NodeView>(d);
    lemma_filter_members(all_paths(d), |p: PathView| is_below(from, p));
    lemma_filter_members(
        paths_below(d, from),
        |p: PathView| is_file_at(d, p) && vpk_name(p.last()),
    );
    assert forall|s: PathView| #[trigger] vpks_below(d, from).contains(s) <==> vpk_below(
        d,
        from,
        s,
    ) by {
        assert(paths_below(d, from).contains(s) <==> all_paths(d).contains(s) && is_below(from, s));
        assert(all_paths(d).contains(s) <==> d.contains_key(s));
    }
}

/// One more file is copied to its place, and what was copied before stays.
spec fn copied_so_far(
    d: DiskView,
    e: DiskView,
    to: PathView,
    id: Seq<char>,
    done: Seq<PathView>,
    names: Seq<Seq<char>>,
) -> bool {
    &&& names.len() == done.len()
    &&& forall|i: int| 0 <= i < done.len() ==> #[trigger] names[i] == id + "_"@ + done[i].last()
    &&& forall|i: int|
        0 <= i < done.len() ==> {
            let q = copy_place(to, id, #[trigger] done[i]);
            e.contains_key(q) && e[q].body == d[done[i]].body
        }
    &&& forall|q: PathView|
        (forall|i: int| 0 <= i < done.len() ==> copy_place(to, id, #[trigger] done[i]) != q)
            ==> #[trigger] same_at(d, e, q)
}

proof fn lemma_one_copied(
    d: DiskView,
    e: DiskView,
    from: PathView,
    to: PathView,
    id: Seq<char>,
    done: Seq<PathView>,
    names: Seq<Seq<char>>,
    s: PathView,
)
    requires
        can_be_copied(d, from, to, id),
        copied_so_far(d, e, to, id, done, names),
        forall|i: int| 0 <= i < done.len() ==> vpk_below(d, from, #[trigger] done[i]),
        vpk_below(d, from, s),
        copied_prefixed((e, Ok(names)), to, id, s).1 is Ok,
    ensures
        ({
            let (f, r) = copied_prefixed((e, Ok(names)), to, id, s);
            copied_so_far(d, f, to, id, done.push(s), r->Ok_0)
        }),
{
    let (f, r) = copied_prefixed((e, Ok::<Seq<Seq<char>>, ErrorView>(names)), to, id, s);
    let name = id + "_"@ + s.last();
    let place = copy_place(to, id, s);
    assert(name == prefixed(id, s.last()));
    assert(plain_name(s.last()));
    assert(plain_name(name)) by {
        reveal_strlit("_");
        reveal_strlit(".");
        reveal_strlit("..");
        assert(name[id.len() as int] == '_');
        if name.contains('/') {
            let i = choose|i: int| 0 <= i < name.len() && name[i] == '/';
            if i < id.len() {
                assert(id[i] == '/');
            } else if i > id.len() {
                assert(s.last()[i - id.len() - 1] == '/');
            }
        }
    }
    lemma_join_plain(to, name);
    assert(path_join(to, name) == place);
    // The source stands as it did.
    assert(same_at(d, e, s)) by {
        assert forall|i: int| 0 <= i < done.len() implies copy_place(to, id, #[trigger] done[i])
            != s by {
            let q = copy_place(to, id, done[i]);
            if q == s {
                assert(from == s.take(from.len() as int));
                if from.len() <= to.len() {
                    assert(to =~= q.take(to.len() as int));
                    assert(from =~= to.take(from.len() as int));
                }
            }
        }
    }
    let all = done.push(s);
    let out = r->Ok_0;
    assert forall|i: int| 0 <= i < all.len() implies #[trigger] out[i] == id + "_"@
        + all[i].last() by {
        if i < done.len() {
            assert(out[i] == names[i]);
        }
    }
    assert forall|i: int| 0 <= i < all.len() implies {
        let q = copy_place(to, id, #[trigger] all[i]);
        f.contains_key(q) && f[q].body == d[all[i]].body
    } by {
        if i < done.len() {
            let q = copy_place(to, id, done[i]);
            assert(all[i] == done[i]);
            assert(e.contains_key(q) && e[q].body == d[done[i]].body);
            if q == place {
                assert(q.last() == id + "_"@ + done[i].last());
                assert(place.last() == name);
                lemma_same_rest(id + "_"@, done[i].last(), s.last());
                assert(vpk_below(d, from, done[i]) && vpk_below(d, from, s));
                assert(done[i] == s);
            }
        }
    }
    assert forall|q: PathView|
        (forall|i: int| 0 <= i < all.len() ==> copy_place(to, id, #[trigger] all[i]) != q) implies
        #[trigger] same_at(d, f, q) by {
        assert(copy_place(to, id, all[done.len() as int]) != q);
        assert forall|i: int| 0 <= i < done.len() implies copy_place(to, id, #[trigger] done[i])
            != q by {
            assert(all[i] == done[i]);
        }
        assert(same_at(d, e, q));
    }
}

proof fn lemma_same_rest(a: Seq<char>, x: Seq<char>, y: Seq<char>)
    requires
        a + x == a + y,
    ensures
        x == y,
{
    assert((a + x).len() == (a + y).len());
    assert(x =~= (a + x).skip(a.len() as int));
    assert(y =~= (a + y).skip(a.len() as int));
}

proof fn lemma_copied(d: DiskView, from: PathView, to: PathView, id: Seq<char>, k: int)
    requires
        can_be_copied(d, from, to, id),
        0 <= k <= vpks_below(d, from).len(),
        copy_first(d, to, id, vpks_below(d, from), k).1 is Ok,
    ensures
        ({
            let (e, r) = copy_first(d, to, id, vpks_below(d, from), k);
            copied_so_far(d, e, to, id, vpks_below(d, from).take(k), r->Ok_0)
        }),
    decreases k,
{
    let all = vpks_below(d, from);
    lemma_vpks_below(d, from);
    if k > 0 {
        lemma_copied(d, from, to, id, k - 1);
        let (e, r) = copy_first(d, to, id, all, k - 1);
        let done = all.take(k - 1);
        let s = all[k - 1];
        assert(all.contains(s));
        assert forall|i: int| 0 <= i < done.len() implies vpk_below(d, from, #[trigger] done[i]) by {
            assert(all.contains(all[i]));
        }
        lemma_one_copied(d, e, from, to, id, done, r->Ok_0, s);
        assert(all.take(k) =~= done.push(s));
    }
}

/// Copying the VPK files below a directory copies every one of them, and nothing else:
/// each stands whole in the other directory under its name behind the id of the mod and a
/// mark, and these names are returned.
pub proof fn law_every_vpk_is_copied(d: DiskView, from: PathView, to: PathView, id: Seq<char>)
    requires
        can_be_copied(d, from, to, id),
        all_copied(d, from, to, id).1 is Ok,
    ensures
        ({
            let (e, r) = all_copied(d, from, to, id);
            let out = r->Ok_0;
            &&& forall|s: PathView| #[trigger]
                vpk_below(d, from, s) ==> {
                    let q = copy_place(to, id, s);
                    &&& e.contains_key(q)
                    &&& e[q].body == d[s].body
                    &&& out.contains(q.last())
                }
            &&& forall|a: int|
                0 <= a < out.len() ==> names_a_copy(d, from, id, #[trigger] out[a])
            &&& forall|q: PathView|
                (forall|s: PathView| #[trigger]
                    vpk_below(d, from, s) ==> copy_place(to, id, s) != q) ==> #[trigger] same_at(
                    d,
                    e,
                    q,
                )
        }),
{
    let all = vpks_below(d, from);
    let (e, r) = all_copied(d, from, to, id);
    let out = r->Ok_0;
    lemma_vpks_below(d, from);
    lemma_copied(d, from, to, id, all.len() as int);
    assert(all.take(all.len() as int) =~= all);
    assert forall|s: PathView| #[trigger] vpk_below(d, from, s) implies {
        let q = copy_place(to, id, s);
        &&& e.contains_key(q)
        &&& e[q].body == d[s].body
        &&& out.contains(q.last())
    } by {
        assert(all.contains(s));
        let i = choose|i: int| 0 <= i < all.len() && all[i] == s;
        assert(out[i] == id + "_"@ + all[i].last());
        assert(copy_place(to, id, all[i]).last() == out[i]);
    }
    assert forall|a: int| 0 <= a < out.len() implies names_a_copy(d, from, id, #[trigger] out[a]) by {
        assert(all.contains(all[a]));
        assert(vpk_below(d, from, all[a]));
        assert(is_copy_name(id, all[a], out[a]));
    }
    assert forall|q: PathView|
        (forall|s: PathView| #[trigger]
            vpk_below(d, from, s) ==> copy_place(to, id, s) != q) implies #[trigger] same_at(
        d,
        e,
        q,
    ) by {
        assert forall|i: int| 0 <= i < all.len() implies copy_place(to, id, #[trigger] all[i])
            != q by {
            assert(all.contains(all[i]));
            assert(vpk_below(d, from, all[i]));
        }
    }
}

/// A file of a tree stands for a file below `from`: both are called the same there,
/// whichever way the slashes lean.
pub open spec fn stands_for(from: PathView, f: FileView, s: PathView) -> bool {
    replaced(f.path, '\\', '/') == relative_text(from, s)
}

/// A VPK file below `from` that the tree has chosen.
pub open spec fn is_chosen(d: DiskView, from: PathView, files: Seq<FileView>, s: PathView) -> bool {
    vpk_below(d, from, s) && exists|i: int|
        0 <= i < files.len() && (#[trigger] files[i]).is_selected && stands_for(from, files[i], s)
}

/// The name of a copy of some chosen VPK file below a directory.
pub open spec fn names_a_choice(
    d: DiskView,
    from: PathView,
    files: Seq<FileView>,
    id: Seq<char>,
    name: Seq<char>,
) -> bool {
    exists|s: PathView| #[trigger] is_chosen(d, from, files, s) && is_copy_name(id, s, name)
}

proof fn lemma_find_relative(list: Seq<PathView>, root: PathView, want: Seq<char>, k: int)
    requires
        0 <= k <= list.len(),
    ensures
        match find_relative(list, root, want, k) {
            Some(s) => list.contains(s) && relative_text(root, s) == want,
            None => forall|i: int|
                0 <= i < k ==> relative_text(root, #[trigger] list[i]) != want,
        },
    decreases k,
{
    if k > 0 {
        lemma_find_relative(list, root, want, k - 1);
    }
}

/// The files that the first `k` entries of a tree have chosen.
spec fn chosen_first(list: Seq<PathView>, root: PathView, files: Seq<FileView>, k: int) -> Seq<
    PathView,
>
    decreases k,
{
    if k <= 0 {
        Seq::empty()
    } else {
        match chosen_source(list, root, files[k - 1]) {
            Some(s) => chosen_first(list, root, files, k - 1).push(s),
            None => chosen_first(list, root, files, k - 1),
        }
    }
}

proof fn lemma_chosen_first(d: DiskView, from: PathView, files: Seq<FileView>, k: int)
    requires
        d.dom().finite(),
        0 <= k <= files.len(),
    ensures
        ({
            let done = chosen_first(vpks_below(d, from), from, files, k);
            &&& forall|a: int| 0 <= a < done.len() ==> is_chosen(d, from, files, #[trigger] done[a])
            &&& forall|i: int|
                0 <= i < k && (#[trigger] files[i]).is_selected && (exists|s: PathView| #[trigger]
                    vpk_below(d, from, s) && stands_for(from, files[i], s)) ==> exists|a: int|
                    0 <= a < done.len() && stands_for(from, files[i], #[trigger] done[a])
        }),
    decreases k,
{
    if k > 0 {
        lemma_chosen_first(d, from, files, k - 1);
        lemma_vpks_below(d, from);
        let list = vpks_below(d, from);
        let was = chosen_first(list, from, files, k - 1);
        let done = chosen_first(list, from, files, k);
        let f = files[k - 1];
        let want = replaced(f.path, '\\', '/');
        lemma_find_relative(list, from, want, list.len() as int);
        assert forall|a: int| 0 <= a < done.len() implies is_chosen(
            d,
            from,
            files,
            #[trigger] done[a],
        ) by {
            if a < was.len() {
                assert(done[a] == was[a]);
            } else {
                assert(list.contains(done[a]));
                assert(files[k - 1].is_selected && stands_for(from, files[k - 1], done[a]));
            }
        }
        assert forall|i: int|
            0 <= i < k && (#[trigger] files[i]).is_selected && (exists|s: PathView| #[trigger]
                vpk_below(d, from, s) && stands_for(from, files[i], s)) implies exists|a: int|
            0 <= a < done.len() && stands_for(from, files[i], #[trigger] done[a]) by {
            if i < k - 1 {
                let a = choose|a: int|
                    0 <= a < was.len() && stands_for(from, files[i], #[trigger] was[a]);
                assert(done[a] == was[a]);
            } else {
                let s = choose|s: PathView| #[trigger]
                    vpk_below(d, from, s) && stands_for(from, files[i], s);
                assert(list.contains(s));
                let x = choose|x: int| 0 <= x < list.len() && list[x] == s;
                assert(relative_text(from, list[x]) == want);
                assert(done.len() > was.len());
                assert(stands_for(from, files[i], done[was.len() as int]));
            }
        }
    }
}

proof fn lemma_chosen_copied(
    d: DiskView,
    from: PathView,
    to: PathView,
    id: Seq<char>,
    files: Seq<FileView>,
    k: int,
)
    requires
        can_be_copied(d, from, to, id),
        0 <= k <= files.len(),
        copy_chosen_first(d, vpks_below(d, from), from, to, id, files, k).1 is Ok,
    ensures
        ({
            let list = vpks_below(d, from);
            let (e, r) = copy_chosen_first(d, list, from, to, id, files, k);
            copied_so_far(d, e, to, id, chosen_first(list, from, files, k), r->Ok_0)
        }),
    decreases k,
{
    let list = vpks_below(d, from);
    if k > 0 {
        let s = copy_chosen_first(d, list, from, to, id, files, k - 1);
        lemma_chosen_copied(d, from, to, id, files, k - 1);
        lemma_chosen_first(d, from, files, k);
        lemma_chosen_first(d, from, files, k - 1);
        let done = chosen_first(list, from, files, k - 1);
        if chosen_source(list, from, files[k - 1]) is Some {
            let p = chosen_source(list, from, files[k - 1])->0;
            let now = chosen_first(list, from, files, k);
            assert(now[done.len() as int] == p);
            assert(is_chosen(d, from, files, now[done.len() as int]));
            assert forall|i: int| 0 <= i < done.len() implies vpk_below(
                d,
                from,
                #[trigger] done[i],
            ) by {
                assert(is_chosen(d, from, files, done[i]));
            }
            lemma_one_copied(d, s.0, from, to, id, done, s.1->Ok_0, p);
        }
    }
}

/// Copying a selection copies for every chosen file of the tree that is there a file that
/// it stands for, whole and under its name behind the id of the mod and a mark; it copies
/// nothing that is not chosen. The names of the copies are returned.
pub proof fn law_chosen_vpks_are_copied(
    d: DiskView,
    from: PathView,
    to: PathView,
    id: Seq<char>,
    files: Seq<FileView>,
)
    requires
        can_be_copied(d, from, to, id),
        chosen_copied(d, from, to, id, files).1 is Ok,
    ensures
        ({
            let (e, r) = chosen_copied(d, from, to, id, files);
            let out = r->Ok_0;
            &&& forall|i: int|
                0 <= i < files.len() && (#[trigger] files[i]).is_selected && (exists|s: PathView|
                    #[trigger]
                    vpk_below(d, from, s) && stands_for(from, files[i], s)) ==> exists|s: PathView|
                    #[trigger]
                    vpk_below(d, from, s) && stands_for(from, files[i], s) && e.contains_key(
                        copy_place(to, id, s),
                    ) && e[copy_place(to, id, s)].body == d[s].body && out.contains(
                        copy_place(to, id, s).last(),
                    )
            &&& forall|a: int|
                0 <= a < out.len() ==> names_a_choice(d, from, files, id, #[trigger] out[a])
            &&& forall|q: PathView|
                (forall|s: PathView| #[trigger]
                    is_chosen(d, from, files, s) ==> copy_place(to, id, s) != q)
                    ==> #[trigger] same_at(d, e, q)
        }),
{
    let list = vpks_below(d, from);
    let n = files.len() as int;
    let (e, r) = chosen_copied(d, from, to, id, files);
    let out = r->Ok_0;
    let done = chosen_first(list, from, files, n);
    lemma_chosen_first(d, from, files, n);
    lemma_chosen_copied(d, from, to, id, files, n);
    assert forall|i: int|
        0 <= i < files.len() && (#[trigger] files[i]).is_selected && (exists|s: PathView| #[trigger]
            vpk_below(d, from, s) && stands_for(from, files[i], s)) implies exists|s: PathView|
        #[trigger]
        vpk_below(d, from, s) && stands_for(from, files[i], s) && e.contains_key(
            copy_place(to, id, s),
        ) && e[copy_place(to, id, s)].body == d[s].body && out.contains(
            copy_place(to, id, s).last(),
        ) by {
        let a = choose|a: int| 0 <= a < done.len() && stands_for(from, files[i], #[trigger] done[a]);
        let s = done[a];
        assert(is_chosen(d, from, files, done[a]));
        assert(out[a] == id + "_"@ + done[a].last());
        assert(copy_place(to, id, s).last() == out[a]);
        assert(vpk_below(d, from, s));
    }
    assert forall|a: int| 0 <= a < out.len() implies names_a_choice(d, from, files, id, #[trigger] out[a]) by {
        assert(is_chosen(d, from, files, done[a]));
        assert(is_copy_name(id, done[a], out[a]));
    }
    assert forall|q: PathView|
        (forall|s: PathView| #[trigger]
            is_chosen(d, from, files, s) ==> copy_place(to, id, s) != q) implies #[trigger] same_at(
        d,
        e,
        q,
    ) by {
        assert forall|i: int| 0 <= i < done.len() implies copy_place(to, id, #[trigger] done[i])
            != q by {
            assert(is_chosen(d, from, files, done[i]));
        }
    }
}

} // verus!
