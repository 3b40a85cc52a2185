//! Which files are found when the hero of a mod is looked for.
use super::{
    bases_of, detection_files, disabled_first, disabled_in, files_among, game_files,
    items_first, kept_files, known_files, known_first, known_in, known_in_shards,
    recorded_first, RequestView,
};
use crate::disk::{
    all_paths, exists_at, is_below, is_dir_at, is_file_at, lemma_filter_members, lemma_names_in,
    names_in, paths_below, DiskView, NodeView,
};
use crate::manager::{addons_root, ManagerView};
use crate::manifest_store::loaded;
use crate::order::law_sorting_keeps_every_value;
use crate::path::{path_join, path_name, path_of, vpk_name, PathView, TreePath};
use crate::shard::{base_of, shard_dir_of, valid_shard, MAX_SHARDS};
use crate::shard_store::{existing_of, lemma_existing};
use crate::table::lemma_finite_has_order;
use crate::text::starts_with;
use crate::vpk_manifest::entry_paths;
use vstd::prelude::*;

verus! {

/// A folder in which the files of mods are looked for: the addons, or a directory in them.
pub open spec fn looked_in(d: DiskView, root: PathView, q: PathView) -> bool {
    q == root || exists|n: Seq<char>|
        is_dir_at(d, root) && q == #[trigger] root.push(n) && is_dir_at(d, q)
}

/// A disabled file of a mod in a folder.
pub open spec fn disabled_at(d: DiskView, q: PathView, id: Seq<char>, p: PathView) -> bool {
    is_dir_at(d, q) && exists|n: Seq<char>|
        p == #[trigger] q.push(n) && exists_at(d, p) && vpk_name(n) && starts_with(n, id + "_"@)
}

/// The manifest of a folder records a mod.
pub open spec fn records_mod(d: DiskView, q: PathView, id: Seq<char>) -> bool {
    base_of(q, true) is Some && loaded(d, q).1 is Ok && loaded(d, q).1->Ok_0.mods.contains_key(id)
}

/// The manifest of a folder records a file of a mod, and it is there: an enabled one in the
/// shard of the mod, a disabled one in the folder itself.
pub open spec fn recorded_at(d: DiskView, q: PathView, id: Seq<char>, p: PathView) -> bool {
    let e = loaded(d, q).1->Ok_0.mods[id];
    let b = base_of(q, true)->0;
    &&& records_mod(d, q, id)
    &&& is_file_at(d, p)
    &&& (e.enabled && exists|i: int|
        0 <= i < e.current.len() && p == path_join(
            shard_dir_of(b, e.shard),
            #[trigger] e.current[i],
        )) || (!e.enabled && exists|i: int|
        0 <= i < e.disabled.len() && p == path_join(b.path, #[trigger] e.disabled[i]))
}

/// A file of a known name stands in shard `n` of a folder.
pub open spec fn known_at(
    d: DiskView,
    q: PathView,
    known: Seq<Seq<char>>,
    n: nat,
    i: int,
    p: PathView,
) -> bool {
    let dir = shard_dir_of(base_of(q, true)->0, n);
    &&& base_of(q, true) is Some
    &&& valid_shard(n)
    &&& exists_at(d, dir)
    &&& 0 <= i < known.len()
    &&& path_name(path_of(known[i])) is Some
    &&& p == dir.push(path_name(path_of(known[i]))->0)
    &&& is_file_at(d, p)
}

proof fn lemma_bases(d: DiskView, root: PathView)
    requires
        d.dom().finite(),
    ensures
        forall|q: PathView| #[trigger] bases_of(d, root).contains(q) <==> looked_in(d, root, q),
{
    lemma_finite_has_order::<TreePath, NodeView>(d);
    lemma_names_in(d, root);
    let names = names_in(d, root);
    let pred = |n: Seq<char>| is_dir_at(d, root.push(n));
    let kept = names.filter(pred);
    lemma_filter_members(names, pred);
    let bases = bases_of(d, root);
    assert(bases[0] == root);
    assert forall|q: PathView| #[trigger] bases.contains(q) <==> looked_in(d, root, q) by {
        if bases.contains(q) && q != root {
            let i = choose|i: int| 0 <= i < bases.len() && bases[i] == q;
            assert(kept.contains(kept[i - 1]));
            assert(q == root.push(kept[i - 1]));
        }
        if looked_in(d, root, q) && q != root {
            let n = choose|n: Seq<char>|
                is_dir_at(d, root) && q == #[trigger] root.push(n) && is_dir_at(d, q);
            assert(names.contains(n));
            assert(kept.contains(n));
            let i = choose|i: int| 0 <= i < kept.len() && kept[i] == n;
            assert(bases[i + 1] == q);
        }
    }
}

proof fn lemma_disabled_in(d: DiskView, q: PathView, id: Seq<char>)
    requires
        d.dom().finite(),
    ensures
        forall|p: PathView| #[trigger] disabled_in(d, q, id).contains(p) <==> disabled_at(d, q, id, p),
{
    lemma_finite_has_order::<TreePath, NodeView>(d);
    lemma_names_in(d, q);
    let names = names_in(d, q);
    let pred = |n: Seq<char>| vpk_name(n) && starts_with(n, id + "_"@);
    let kept = names.filter(pred);
    lemma_filter_members(names, pred);
    let out = disabled_in(d, q, id);
    assert forall|p: PathView| #[trigger] out.contains(p) <==> disabled_at(d, q, id, p) by {
        if out.contains(p) {
            let i = choose|i: int| 0 <= i < out.len() && out[i] == p;
            assert(kept.contains(kept[i]));
            assert(p == q.push(kept[i]));
        }
        if disabled_at(d, q, id, p) {
            let n = choose|n: Seq<char>|
                p == #[trigger] q.push(n) && exists_at(d, p) && vpk_name(n) && starts_with(
                    n,
                    id + "_"@,
                );
            assert(names.contains(n));
            assert(kept.contains(n));
            let i = choose|i: int| 0 <= i < kept.len() && kept[i] == n;
            assert(out[i] == p);
        }
    }
}

proof fn lemma_joined<A>(a: Seq<A>, b: Seq<A>)
    ensures
        forall|x: A| #[trigger] (a + b).contains(x) <==> a.contains(x) || b.contains(x),
{
    assert forall|x: A| #[trigger] (a + b).contains(x) <==> a.contains(x) || b.contains(x) by {
        let c = a + b;
        if c.contains(x) {
            let i = choose|i: int| 0 <= i < c.len() && c[i] == x;
            if i < a.len() {
                assert(a[i] == x);
            } else {
                assert(b[i - a.len()] == x);
            }
        }
        if a.contains(x) {
            let i = choose|i: int| 0 <= i < a.len() && a[i] == x;
            assert(c[i] == x);
        }
        if b.contains(x) {
            let i = choose|i: int| 0 <= i < b.len() && b[i] == x;
            assert(c[a.len() + i] == x);
        }
    }
}

proof fn lemma_disabled_first(
    d: DiskView,
    bases: Seq<PathView>,
    id: Seq<char>,
    k: int,
    p: PathView,
)
    requires
        d.dom().finite(),
        0 <= k <= bases.len(),
    ensures
        disabled_first(d, bases, id, k).contains(p) <==> exists|j: int|
            0 <= j < k && disabled_at(d, #[trigger] bases[j], id, p),
    decreases k,
{
    if k > 0 {
        lemma_disabled_first(d, bases, id, k - 1, p);
        lemma_disabled_in(d, bases[k - 1], id);
        lemma_joined(disabled_first(d, bases, id, k - 1), disabled_in(d, bases[k - 1], id));
        if disabled_in(d, bases[k - 1], id).contains(p) {
            assert(disabled_at(d, bases[k - 1], id, p));
        }
    }
}

/// Reading the manifests of the folders changes nothing.
pub open spec fn only_read(d: DiskView, bases: Seq<PathView>) -> bool {
    forall|j: int| 0 <= j < bases.len() ==> loaded(d, #[trigger] bases[j]).0 == d
}

proof fn lemma_recorded_at(d: DiskView, q: PathView, id: Seq<char>, p: PathView)
    requires
        records_mod(d, q, id),
    ensures
        files_among(
            d,
            entry_paths(loaded(d, q).1->Ok_0.mods[id], base_of(q, true)->0),
        ).contains(p) <==> recorded_at(d, q, id, p),
{
    let e = loaded(d, q).1->Ok_0.mods[id];
    let b = base_of(q, true)->0;
    let paths = entry_paths(e, b);
    lemma_filter_members(paths, |x: PathView| is_file_at(d, x));
    if paths.contains(p) {
        let i = choose|i: int| 0 <= i < paths.len() && paths[i] == p;
        if e.enabled {
            assert(p == path_join(shard_dir_of(b, e.shard), e.current[i]));
        } else {
            assert(p == path_join(b.path, e.disabled[i]));
        }
    }
    if recorded_at(d, q, id, p) {
        if e.enabled {
            let i = choose|i: int|
                0 <= i < e.current.len() && p == path_join(
                    shard_dir_of(b, e.shard),
                    #[trigger] e.current[i],
                );
            assert(paths[i] == p);
        } else {
            let i = choose|i: int|
                0 <= i < e.disabled.len() && p == path_join(b.path, #[trigger] e.disabled[i]);
            assert(paths[i] == p);
        }
    }
}

proof fn lemma_recorded_first(
    d: DiskView,
    bases: Seq<PathView>,
    id: Seq<char>,
    k: int,
    p: PathView,
)
    requires
        0 <= k <= bases.len(),
        only_read(d, bases),
    ensures
        recorded_first(d, bases, id, k).0 == d,
        recorded_first(d, bases, id, k).1.any <==> exists|j: int|
            0 <= j < k && records_mod(d, #[trigger] bases[j], id),
        recorded_first(d, bases, id, k).1.files.contains(p) <==> exists|j: int|
            0 <= j < k && recorded_at(d, #[trigger] bases[j], id, p),
    decreases k,
{
    if k > 0 {
        lemma_recorded_first(d, bases, id, k - 1, p);
        let q = bases[k - 1];
        assert(loaded(d, q).0 == d);
        let before = recorded_first(d, bases, id, k - 1).1.files;
        if records_mod(d, q, id) {
            let own = files_among(
                d,
                entry_paths(loaded(d, q).1->Ok_0.mods[id], base_of(q, true)->0),
            );
            lemma_recorded_at(d, q, id, p);
            lemma_joined(before, own);
            assert(records_mod(d, bases[k - 1], id));
            assert(recorded_first(d, bases, id, k).1.files == before + own);
            if own.contains(p) {
                assert(recorded_at(d, bases[k - 1], id, p));
            }
        } else {
            assert(recorded_first(d, bases, id, k).1 == recorded_first(d, bases, id, k - 1).1);
        }
    } else {
        assert(!recorded_first(d, bases, id, k).1.files.contains(p));
    }
}

/// A file of a known name stands in a folder.
pub open spec fn known_below(
    d: DiskView,
    q: PathView,
    known: Seq<Seq<char>>,
    p: PathView,
) -> bool {
    exists|n: nat, i: int| #[trigger] known_at(d, q, known, n, i, p)
}

proof fn lemma_known_in(d: DiskView, q: PathView, n: nat, known: Seq<Seq<char>>, p: PathView)
    requires
        base_of(q, true) is Some,
        valid_shard(n),
        exists_at(d, shard_dir_of(base_of(q, true)->0, n)),
    ensures
        files_among(d, known_in(shard_dir_of(base_of(q, true)->0, n), known)).contains(p)
            <==> exists|i: int| #[trigger] known_at(d, q, known, n, i, p),
{
    let dir = shard_dir_of(base_of(q, true)->0, n);
    let pred = |v: Seq<char>| path_name(path_of(v)) is Some;
    let kept = known.filter(pred);
    lemma_filter_members(known, pred);
    let paths = known_in(dir, known);
    lemma_filter_members(paths, |x: PathView| is_file_at(d, x));
    if files_among(d, paths).contains(p) {
        assert(paths.contains(p));
        let j = choose|j: int| 0 <= j < paths.len() && paths[j] == p;
        assert(kept.contains(kept[j]));
        let i = choose|i: int| 0 <= i < known.len() && known[i] == kept[j];
        assert(known_at(d, q, known, n, i, p));
    }
    if exists|i: int| #[trigger] known_at(d, q, known, n, i, p) {
        let i = choose|i: int| #[trigger] known_at(d, q, known, n, i, p);
        assert(known.contains(known[i]));
        assert(kept.contains(known[i]));
        let j = choose|j: int| 0 <= j < kept.len() && kept[j] == known[i];
        assert(paths[j] == p);
        assert(paths.contains(p));
    }
}

proof fn lemma_known_in_shards(
    d: DiskView,
    q: PathView,
    known: Seq<Seq<char>>,
    k: int,
    p: PathView,
)
    requires
        base_of(q, true) is Some,
        0 <= k <= existing_of(d, base_of(q, true)->0).len(),
    ensures
        known_in_shards(d, base_of(q, true)->0, known, k).contains(p) <==> exists|
            j: int,
            i: int,
        |
            0 <= j < k && #[trigger] known_at(
                d,
                q,
                known,
                existing_of(d, base_of(q, true)->0)[j],
                i,
                p,
            ),
    decreases k,
{
    let b = base_of(q, true)->0;
    let all = existing_of(d, b);
    if k > 0 {
        lemma_existing(d, b, MAX_SHARDS as nat);
        lemma_known_in_shards(d, q, known, k - 1, p);
        let n = all[k - 1];
        lemma_known_in(d, q, n, known, p);
        let own = files_among(d, known_in(shard_dir_of(b, n), known));
        lemma_joined(known_in_shards(d, b, known, k - 1), own);
        if own.contains(p) {
            let i = choose|i: int| #[trigger] known_at(d, q, known, n, i, p);
            assert(known_at(d, q, known, all[k - 1], i, p));
        }
        if exists|j: int, i: int|
            0 <= j < k && #[trigger] known_at(d, q, known, all[j], i, p) {
            let (j, i) = choose|j: int, i: int|
                0 <= j < k && #[trigger] known_at(d, q, known, all[j], i, p);
            if j < k - 1 {
                assert(known_at(d, q, known, all[j], i, p));
            } else {
                assert(known_at(d, q, known, n, i, p));
            }
        }
    }
}

proof fn lemma_known_first(
    d: DiskView,
    bases: Seq<PathView>,
    known: Seq<Seq<char>>,
    k: int,
    p: PathView,
)
    requires
        0 <= k <= bases.len(),
    ensures
        known_first(d, bases, known, k).contains(p) <==> exists|j: int|
            0 <= j < k && known_below(d, #[trigger] bases[j], known, p),
    decreases k,
{
    if k > 0 {
        lemma_known_first(d, bases, known, k - 1, p);
        let q = bases[k - 1];
        let own = match base_of(q, true) {
            Some(b) => known_in_shards(d, b, known, existing_of(d, b).len() as int),
            None => Seq::empty(),
        };
        lemma_joined(known_first(d, bases, known, k - 1), own);
        if base_of(q, true) is Some {
            let b = base_of(q, true)->0;
            let all = existing_of(d, b);
            lemma_existing(d, b, MAX_SHARDS as nat);
            lemma_known_in_shards(d, q, known, all.len() as int, p);
            if own.contains(p) {
                let (j, i) = choose|j: int, i: int|
                    0 <= j < all.len() && #[trigger] known_at(d, q, known, all[j], i, p);
                assert(known_at(d, q, known, all[j], i, p));
                assert(known_below(d, bases[k - 1], known, p));
            }
            if known_below(d, q, known, p) {
                let (n, i) = choose|n: nat, i: int| #[trigger] known_at(d, q, known, n, i, p);
                assert(all.contains(n));
                let j = choose|j: int| 0 <= j < all.len() && all[j] == n;
                assert(known_at(d, q, known, all[j], i, p));
            }
        }
    }
}

/// A file that is found for a mod in a folder: one on record, a disabled one, or, where no
/// folder records the mod, one of a known name.
pub open spec fn found_in(
    d: DiskView,
    q: PathView,
    id: Seq<char>,
    known: Seq<Seq<char>>,
    guess: bool,
    p: PathView,
) -> bool {
    recorded_at(d, q, id, p) || disabled_at(d, q, id, p) || (guess && known_below(d, q, known, p))
}

/// The files of a mod that are found among the addons are, over all folders, those on record
/// that are there, its disabled ones, and, if no folder records it, those of a known name; each
/// of them once.
pub proof fn law_every_file_of_a_mod_is_found(
    d: DiskView,
    root: PathView,
    id: Seq<char>,
    known: Seq<Seq<char>>,
    p: PathView,
)
    requires
        d.dom().finite(),
        forall|q: PathView| #[trigger] looked_in(d, root, q) ==> loaded(d, q).0 == d,
    ensures
        ({
            let (e, out) = game_files(d, root, id, known);
            let guess = !exists|q: PathView| #[trigger]
                looked_in(d, root, q) && records_mod(d, q, id);
            &&& e == d
            &&& out.no_duplicates()
            &&& out.contains(p) <==> exists|q: PathView| #[trigger]
                looked_in(d, root, q) && found_in(d, q, id, known, guess, p)
        }),
{
    let bases = bases_of(d, root);
    let n = bases.len() as int;
    lemma_bases(d, root);
    assert forall|j: int| 0 <= j < bases.len() implies loaded(d, #[trigger] bases[j]).0 == d by {
        assert(bases.contains(bases[j]));
        assert(looked_in(d, root, bases[j]));
    }
    lemma_recorded_first(d, bases, id, n, p);
    lemma_known_first(d, bases, known, n, p);
    lemma_disabled_first(d, bases, id, n, p);
    let r = recorded_first(d, bases, id, n).1;
    let guessed = if r.any {
        Seq::empty()
    } else {
        known_first(d, bases, known, n)
    };
    let disabled = disabled_first(d, bases, id, n);
    let list = r.files + guessed + disabled;
    lemma_joined(r.files, guessed);
    lemma_joined(r.files + guessed, disabled);
    law_sorting_keeps_every_value::<TreePath>(list);
    let out = game_files(d, root, id, known).1;
    let guess = !exists|q: PathView| #[trigger] looked_in(d, root, q) && records_mod(d, q, id);
    assert(guess == !r.any) by {
        if r.any {
            let j = choose|j: int| 0 <= j < n && records_mod(d, #[trigger] bases[j], id);
            assert(bases.contains(bases[j]));
            assert(looked_in(d, root, bases[j]) && records_mod(d, bases[j], id));
        }
        if !guess {
            let q = choose|q: PathView| #[trigger]
                looked_in(d, root, q) && records_mod(d, q, id);
            assert(bases.contains(q));
            let j = choose|j: int| 0 <= j < bases.len() && bases[j] == q;
            assert(records_mod(d, bases[j], id));
        }
    }
    assert(out.contains(p) <==> list.contains(p));
    if list.contains(p) {
        let j = if r.files.contains(p) {
            choose|j: int| 0 <= j < n && recorded_at(d, #[trigger] bases[j], id, p)
        } else if disabled.contains(p) {
            choose|j: int| 0 <= j < n && disabled_at(d, #[trigger] bases[j], id, p)
        } else {
            choose|j: int| 0 <= j < n && known_below(d, #[trigger] bases[j], known, p)
        };
        assert(guessed.contains(p) ==> guess);
        assert(bases.contains(bases[j]));
        assert(looked_in(d, root, bases[j]) && found_in(d, bases[j], id, known, guess, p));
    }
    if exists|q: PathView| #[trigger]
        looked_in(d, root, q) && found_in(d, q, id, known, guess, p) {
        let q = choose|q: PathView| #[trigger]
            looked_in(d, root, q) && found_in(d, q, id, known, guess, p);
        assert(bases.contains(q));
        let j = choose|j: int| 0 <= j < bases.len() && bases[j] == q;
        assert(found_in(d, bases[j], id, known, guess, p));
    }
}

/// The hero of a mod is looked for in its files among the addons, and then in every VPK file
/// below its own directory in the store.
pub proof fn law_kept_files_are_looked_into(
    d: DiskView,
    m: ManagerView,
    id: Seq<char>,
    given: Option<Seq<Seq<char>>>,
    store: PathView,
    p: PathView,
)
    requires
        ({
            let e = detection_files(d, m, id, given, Some(store)).0;
            e.dom().finite() && exists_at(e, path_join(store, id))
        }),
    ensures
        ({
            let (e, out) = detection_files(d, m, id, given, Some(store));
            let (e0, first) = detection_files(d, m, id, given, None);
            let known = if m.repo.contains_key(id) && m.repo[id].installed.len() > 0 {
                m.repo[id].installed
            } else if given is Some {
                given->0
            } else {
                Seq::empty()
            };
            &&& e0 == e
            &&& out.contains(p) <==> first.contains(p) || (is_below(path_join(store, id), p)
                && is_file_at(e, p) && vpk_name(p.last()))
            &&& m.game_path is Some && exists_at(d, addons_root(m.game_path->0)) ==> (e, first)
                == game_files(d, addons_root(m.game_path->0), id, known)
            &&& m.game_path is None || !exists_at(d, addons_root(m.game_path->0)) ==> e == d
                && first.len() == 0
        }),
{
    let (e, out) = detection_files(d, m, id, given, Some(store));
    let (e0, first) = detection_files(d, m, id, given, None);
    let dir = path_join(store, id);
    let kept = kept_files(e, dir);
    lemma_finite_has_order::<TreePath, NodeView>(e);
    lemma_filter_members(all_paths(e), |x: PathView| is_below(dir, x));
    lemma_filter_members(
        paths_below(e, dir),
        |x: PathView| is_file_at(e, x) && vpk_name(x.last()),
    );
    assert(all_paths(e).contains(p) <==> e.contains_key(p));
    let (d1, found) = match m.game_path {
        Some(g) => if exists_at(d, addons_root(g)) {
            game_files(d, addons_root(g), id, known_files(m.repo, id, given))
        } else {
            (d, Seq::empty())
        },
        None => (d, Seq::empty()),
    };
    assert(first =~= found);
    assert(out == found + kept);
    lemma_joined(found, kept);
}

/// There is one item for each request, in their order, with the files that are found for that
/// mod alone, as long as looking changes nothing.
pub proof fn law_each_request_is_answered(
    d: DiskView,
    m: ManagerView,
    requests: Seq<RequestView>,
    store: Option<PathView>,
    k: int,
)
    requires
        0 <= k <= requests.len(),
        forall|i: int|
            0 <= i < requests.len() ==> detection_files(
                d,
                m,
                (#[trigger] requests[i]).mod_id,
                requests[i].installed,
                store,
            ).0 == d,
    ensures
        ({
            let (e, items) = items_first(d, m, requests, store, k);
            &&& e == d
            &&& items.len() == k
            &&& forall|i: int|
                0 <= i < k ==> (#[trigger] items[i]).0 == requests[i].mod_id && items[i].1
                    == detection_files(d, m, requests[i].mod_id, requests[i].installed, store).1
        }),
    decreases k,
{
    if k > 0 {
        law_each_request_is_answered(d, m, requests, store, k - 1);
        assert(detection_files(
            d,
            m,
            requests[k - 1].mod_id,
            requests[k - 1].installed,
            store,
        ).0 == d);
    }
}

} // verus!
