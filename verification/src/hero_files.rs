//! The VPK files in which the hero of a mod is looked for.
use crate::{order, path, text};
use crate::disk::{
    is_dir_at, is_file_at, lemma_filter_members, lemma_filter_push, names_in, paths_below, Disk,
    DiskView,
};
use crate::journal::{group_journal, ordered};
use crate::manager::{addons_root, addons_root_of, ManagerView, ModManager, RepoView};
use crate::manifest_store::loaded;
use crate::order::{key_values, sorted_set};
use crate::path::{path_name, path_of, vpk_name, PathView, TreePath};
use crate::shard::{base_of, shard_dir_of, BaseView, ProfileBase};
use crate::shard_store::existing_of;
use crate::text::{starts_with, texts};
use crate::vpk_manifest::{entry_paths, path_views, ProfileVpkManifest};
use vstd::prelude::*;
use vstd::string::*;

pub mod finding;

verus! {

broadcast use group_journal;

/// A mod whose hero is asked for, with the files that the caller knows of.
pub struct ModDetectionRequest {
    pub mod_id: String,
    pub installed_vpks: Option<Vec<String>>,
}

/// The files in which the hero of a mod is looked for.
#[derive(Debug)]
pub struct DetectionItem {
    pub id: String,
    pub vpk_paths: Vec<TreePath>,
}

// ---------------------------------------------------------------------------
// The folders to look in
// ---------------------------------------------------------------------------

/// The addons, and every directory in them.
pub open spec fn bases_of(d: DiskView, root: PathView) -> Seq<PathView> {
    seq![root] + if is_dir_at(d, root) {
        names_in(d, root).filter(|n: Seq<char>| is_dir_at(d, root.push(n))).map_values(
            |n: Seq<char>| root.push(n),
        )
    } else {
        Seq::empty()
    }
}

/// The addons, and every directory in them.
pub fn profile_bases(disk: &Disk, addons_root: &TreePath) -> (r: Vec<TreePath>)
    ensures
        path_views(r@) == bases_of(disk@, addons_root@),
{
    let ghost d = disk@;
    let ghost root = addons_root@;
    let mut r: Vec<TreePath> = Vec::new();
    r.push(addons_root.duplicate());
    let ghost head = seq![root];
    assert(path_views(r@) =~= head);
    if !disk.is_dir(addons_root) {
        assert(head + Seq::<PathView>::empty() =~= head);
        return r;
    }
    let names = disk.names(addons_root);
    let ghost all = names_in(d, root);
    let ghost pred = |n: Seq<char>| is_dir_at(d, root.push(n));
    let ghost show = |n: Seq<char>| root.push(n);
    let mut i: usize = 0;
    proof {
        reveal(Seq::filter);
        assert(all.take(0).filter(pred) =~= Seq::<Seq<char>>::empty());
        assert(path_views(r@) =~= head + all.take(0).filter(pred).map_values(show));
    }
    while i < names.len()
        invariant
            i <= names@.len(),
            d == disk@,
            root == addons_root@,
            texts(names@) == all,
            pred == (|n: Seq<char>| is_dir_at(d, root.push(n))),
            show == (|n: Seq<char>| root.push(n)),
            path_views(r@) == head + all.take(i as int).filter(pred).map_values(show),
        decreases names@.len() - i,
    {
        let name = names[i].as_str();
        let ghost so_far = all.take(i as int).filter(pred);
        proof {
            assert(all[i as int] == name@);
            assert(all.take(i + 1) =~= all.take(i as int).push(name@));
            lemma_filter_push(all.take(i as int), name@, pred);
            assert(head + so_far.push(name@).map_values(show) =~= (head + so_far.map_values(
                show,
            )).push(show(name@)));
        }
        let p = addons_root.child(name);
        if disk.is_dir(&p) {
            assert(path_views(r@.push(p)) =~= path_views(r@).push(p@));
            r.push(p);
        }
        i = i + 1;
    }
    assert(all.take(all.len() as int) =~= all);
    r
}

// ---------------------------------------------------------------------------
// The files of a mod
// ---------------------------------------------------------------------------

/// What the manifests of some folders tell of a mod: whether one records it, and
/// the files that they name and that are there.
pub struct Recorded {
    pub any: bool,
    pub files: Seq<PathView>,
}

/// Those of a list of paths at which a file stands.
pub open spec fn files_among(d: DiskView, paths: Seq<PathView>) -> Seq<PathView> {
    paths.filter(|p: PathView| is_file_at(d, p))
}

/// What the manifests of the first `k` folders tell of a mod. A folder that is
/// none of a profile, or whose manifest cannot be read, tells nothing.
pub open spec fn recorded_first(d: DiskView, bases: Seq<PathView>, id: Seq<char>, k: int) -> (
    DiskView,
    Recorded,
)
    decreases k,
{
    if k <= 0 {
        (d, Recorded { any: false, files: Seq::empty() })
    } else {
        let (d1, r) = recorded_first(d, bases, id, k - 1);
        let (d2, l) = loaded(d1, bases[k - 1]);
        match (base_of(bases[k - 1], true), l) {
            (Some(b), Ok(m)) => if m.mods.contains_key(id) {
                (
                    d2,
                    Recorded {
                        any: true,
                        files: r.files + files_among(d2, entry_paths(m.mods[id], b)),
                    },
                )
            } else {
                (d2, r)
            },
            _ => (d2, r),
        }
    }
}

/// Where the known files of a mod would be in a directory.
pub open spec fn known_in(dir: PathView, known: Seq<Seq<char>>) -> Seq<PathView> {
    known.filter(|v: Seq<char>| path_name(path_of(v)) is Some).map_values(
        |v: Seq<char>| dir.push(path_name(path_of(v))->0),
    )
}

/// The known files of a mod that are in the first `k` of some shards.
pub open spec fn known_in_shards(
    d: DiskView,
    b: BaseView,
    known: Seq<Seq<char>>,
    k: int,
) -> Seq<PathView>
    decreases k,
{
    if k <= 0 {
        Seq::empty()
    } else {
        known_in_shards(d, b, known, k - 1) + files_among(
            d,
            known_in(shard_dir_of(b, existing_of(d, b)[k - 1]), known),
        )
    }
}

/// The known files of a mod that are in the first `k` folders.
pub open spec fn known_first(
    d: DiskView,
    bases: Seq<PathView>,
    known: Seq<Seq<char>>,
    k: int,
) -> Seq<PathView>
    decreases k,
{
    if k <= 0 {
        Seq::empty()
    } else {
        known_first(d, bases, known, k - 1) + match base_of(bases[k - 1], true) {
            Some(b) => known_in_shards(d, b, known, existing_of(d, b).len() as int),
            None => Seq::empty(),
        }
    }
}

/// The disabled files of a mod in a folder.
pub open spec fn disabled_in(d: DiskView, dir: PathView, id: Seq<char>) -> Seq<PathView> {
    if is_dir_at(d, dir) {
        names_in(d, dir).filter(|n: Seq<char>| vpk_name(n) && starts_with(n, id + "_"@)).map_values(
            |n: Seq<char>| dir.push(n),
        )
    } else {
        Seq::empty()
    }
}

/// The disabled files of a mod in the first `k` folders.
pub open spec fn disabled_first(d: DiskView, bases: Seq<PathView>, id: Seq<char>, k: int) -> Seq<
    PathView,
>
    decreases k,
{
    if k <= 0 {
        Seq::empty()
    } else {
        disabled_first(d, bases, id, k - 1) + disabled_in(d, bases[k - 1], id)
    }
}

/// The files of a mod among the addons, in the order of their paths: those that
/// the manifests name, or if none records the mod those that are known otherwise;
/// and its disabled ones.
pub open spec fn game_files(d: DiskView, root: PathView, id: Seq<char>, known: Seq<Seq<char>>) -> (
    DiskView,
    Seq<PathView>,
) {
    let bases = bases_of(d, root);
    let n = bases.len() as int;
    let (d1, r) = recorded_first(d, bases, id, n);
    let guessed = if r.any {
        Seq::empty()
    } else {
        known_first(d1, bases, known, n)
    };
    (d1, sorted_set::<TreePath>(r.files + guessed + disabled_first(d1, bases, id, n)))
}

fn append_paths(out: &mut Vec<TreePath>, more: Vec<TreePath>)
    ensures
        path_views(final(out)@) == path_views(old(out)@) + path_views(more@),
{
    let mut more = more;
    let ghost a = path_views(out@);
    let ghost b = path_views(more@);
    out.append(&mut more);
    assert(path_views(out@) =~= a + b);
}

fn keep_files(disk: &Disk, paths: &Vec<TreePath>) -> (r: Vec<TreePath>)
    ensures
        path_views(r@) == files_among(disk@, path_views(paths@)),
{
    let ghost all = path_views(paths@);
    let ghost pred = |p: PathView| is_file_at(disk@, p);
    let mut r: Vec<TreePath> = Vec::new();
    let mut i: usize = 0;
    proof {
        reveal(Seq::filter);
        assert(all.take(0).filter(pred) =~= Seq::<PathView>::empty());
        assert(path_views(r@) =~= Seq::<PathView>::empty());
    }
    while i < paths.len()
        invariant
            i <= paths@.len(),
            all == path_views(paths@),
            pred == (|p: PathView| is_file_at(disk@, p)),
            path_views(r@) == all.take(i as int).filter(pred),
        decreases paths@.len() - i,
    {
        proof {
            assert(all[i as int] == paths@[i as int]@);
            assert(all.take(i + 1) =~= all.take(i as int).push(all[i as int]));
            lemma_filter_push(all.take(i as int), all[i as int], pred);
        }
        if disk.is_file(&paths[i]) {
            let q = paths[i].duplicate();
            assert(path_views(r@.push(q)) =~= path_views(r@).push(q@));
            r.push(q);
        }
        i = i + 1;
    }
    assert(all.take(all.len() as int) =~= all);
    r
}

fn list_recorded(disk: &mut Disk, bases: &Vec<TreePath>, id: &str) -> (r: (bool, Vec<TreePath>))
    ensures
        ordered(*old(disk), *final(disk)),
        ({
            let (d, out) = recorded_first(
                old(disk)@,
                path_views(bases@),
                id@,
                bases@.len() as int,
            );
            final(disk)@ == d && r.0 == out.any && path_views(r.1@) == out.files
        }),
{
    let ghost d = disk@;
    let ghost bv = path_views(bases@);
    let mut any = false;
    let mut files: Vec<TreePath> = Vec::new();
    let mut i: usize = 0;
    assert(path_views(files@) =~= Seq::<PathView>::empty());
    while i < bases.len()
        invariant
            i <= bases@.len(),
            bv == path_views(bases@),
            d == old(disk)@,
            ordered(*old(disk), *disk),
            ({
                let (d1, out) = recorded_first(d, bv, id@, i as int);
                disk@ == d1 && any == out.any && path_views(files@) == out.files
            }),
        decreases bases@.len() - i,
    {
        assert(bv[i as int] == bases@[i as int]@);
        let base = ProfileBase::new(&bases[i]);
        let manifest = ProfileVpkManifest::load(disk, &bases[i]);
        match (base, manifest) {
            (Ok(base), Ok(manifest)) => {
                match manifest.entry(id) {
                    Some(e) => {
                        any = true;
                        let found = keep_files(disk, &e.file_paths(&base));
                        append_paths(&mut files, found);
                    },
                    None => {},
                }
            },
            _ => {},
        }
        i = i + 1;
    }
    (any, files)
}

fn list_known_in(dir: &TreePath, known: &Vec<String>) -> (r: Vec<TreePath>)
    ensures
        path_views(r@) == known_in(dir@, texts(known@)),
{
    let ghost all = texts(known@);
    let ghost pred = |v: Seq<char>| path_name(path_of(v)) is Some;
    let ghost show = |v: Seq<char>| dir@.push(path_name(path_of(v))->0);
    let mut r: Vec<TreePath> = Vec::new();
    let mut i: usize = 0;
    proof {
        reveal(Seq::filter);
        assert(all.take(0).filter(pred) =~= Seq::<Seq<char>>::empty());
        assert(path_views(r@) =~= all.take(0).filter(pred).map_values(show));
    }
    while i < known.len()
        invariant
            i <= known@.len(),
            all == texts(known@),
            pred == (|v: Seq<char>| path_name(path_of(v)) is Some),
            show == (|v: Seq<char>| dir@.push(path_name(path_of(v))->0)),
            path_views(r@) == all.take(i as int).filter(pred).map_values(show),
        decreases known@.len() - i,
    {
        let ghost v = all[i as int];
        let ghost so_far = all.take(i as int).filter(pred);
        proof {
            assert(v == known@[i as int]@);
            assert(all.take(i + 1) =~= all.take(i as int).push(v));
            lemma_filter_push(all.take(i as int), v, pred);
            assert(so_far.push(v).map_values(show) =~= so_far.map_values(show).push(show(v)));
        }
        match TreePath::parse(known[i].as_str()).file_name() {
            Some(name) => {
                let q = dir.child(name.as_str());
                assert(path_views(r@.push(q)) =~= path_views(r@).push(q@));
                r.push(q);
            },
            None => {},
        }
        i = i + 1;
    }
    assert(all.take(all.len() as int) =~= all);
    r
}

fn list_known_in_shards(disk: &Disk, base: &ProfileBase, known: &Vec<String>) -> (r: Vec<TreePath>)
    ensures
        path_views(r@) == known_in_shards(
            disk@,
            base@,
            texts(known@),
            existing_of(disk@, base@).len() as int,
        ),
{
    let ghost d = disk@;
    let ghost b = base@;
    let shards = base.existing_shards(disk);
    let mut r: Vec<TreePath> = Vec::new();
    let mut i: usize = 0;
    assert(path_views(r@) =~= Seq::<PathView>::empty());
    while i < shards.len()
        invariant
            i <= shards@.len(),
            d == disk@,
            b == base@,
            shards@.len() == existing_of(d, b).len(),
            forall|j: int|
                0 <= j < shards@.len() ==> (#[trigger] shards@[j]).1@ == shard_dir_of(
                    b,
                    existing_of(d, b)[j],
                ),
            path_views(r@) == known_in_shards(d, b, texts(known@), i as int),
        decreases shards@.len() - i,
    {
        let found = keep_files(disk, &list_known_in(&shards[i].1, known));
        append_paths(&mut r, found);
        i = i + 1;
    }
    r
}

fn list_known(disk: &Disk, bases: &Vec<TreePath>, known: &Vec<String>) -> (r: Vec<TreePath>)
    ensures
        path_views(r@) == known_first(
            disk@,
            path_views(bases@),
            texts(known@),
            bases@.len() as int,
        ),
{
    let ghost d = disk@;
    let ghost bv = path_views(bases@);
    let mut r: Vec<TreePath> = Vec::new();
    let mut i: usize = 0;
    assert(path_views(r@) =~= Seq::<PathView>::empty());
    while i < bases.len()
        invariant
            i <= bases@.len(),
            d == disk@,
            bv == path_views(bases@),
            path_views(r@) == known_first(d, bv, texts(known@), i as int),
        decreases bases@.len() - i,
    {
        assert(bv[i as int] == bases@[i as int]@);
        let ghost so_far = path_views(r@);
        match ProfileBase::new(&bases[i]) {
            Ok(base) => {
                let found = list_known_in_shards(disk, &base, known);
                append_paths(&mut r, found);
            },
            Err(_) => {
                assert(so_far + Seq::<PathView>::empty() =~= so_far);
            },
        }
        i = i + 1;
    }
    r
}

fn list_disabled_in(disk: &Disk, dir: &TreePath, id: &str) -> (r: Vec<TreePath>)
    ensures
        path_views(r@) == disabled_in(disk@, dir@, id@),
{
    let ghost d = disk@;
    let mut r: Vec<TreePath> = Vec::new();
    assert(path_views(r@) =~= Seq::<PathView>::empty());
    if !disk.is_dir(dir) {
        return r;
    }
    let mut prefix: String = id.to_owned();
    prefix.append("_");
    let names = disk.names(dir);
    let ghost all = names_in(d, dir@);
    let ghost pred = |n: Seq<char>| vpk_name(n) && starts_with(n, id@ + "_"@);
    let ghost show = |n: Seq<char>| dir@.push(n);
    let mut i: usize = 0;
    proof {
        reveal(Seq::filter);
        assert(all.take(0).filter(pred) =~= Seq::<Seq<char>>::empty());
        assert(path_views(r@) =~= all.take(0).filter(pred).map_values(show));
    }
    while i < names.len()
        invariant
            i <= names@.len(),
            texts(names@) == all,
            prefix@ == id@ + "_"@,
            pred == (|n: Seq<char>| vpk_name(n) && starts_with(n, id@ + "_"@)),
            show == (|n: Seq<char>| dir@.push(n)),
            path_views(r@) == all.take(i as int).filter(pred).map_values(show),
        decreases names@.len() - i,
    {
        let name = names[i].as_str();
        let ghost so_far = all.take(i as int).filter(pred);
        proof {
            assert(all[i as int] == name@);
            assert(all.take(i + 1) =~= all.take(i as int).push(name@));
            lemma_filter_push(all.take(i as int), name@, pred);
            assert(so_far.push(name@).map_values(show) =~= so_far.map_values(show).push(
                show(name@),
            ));
        }
        if path::is_vpk_name(name) && text::begins(name, prefix.as_str()) {
            let q = dir.child(name);
            assert(path_views(r@.push(q)) =~= path_views(r@).push(q@));
            r.push(q);
        }
        i = i + 1;
    }
    assert(all.take(all.len() as int) =~= all);
    r
}

fn list_disabled(disk: &Disk, bases: &Vec<TreePath>, id: &str) -> (r: Vec<TreePath>)
    ensures
        path_views(r@) == disabled_first(disk@, path_views(bases@), id@, bases@.len() as int),
{
    let ghost d = disk@;
    let ghost bv = path_views(bases@);
    let mut r: Vec<TreePath> = Vec::new();
    let mut i: usize = 0;
    assert(path_views(r@) =~= Seq::<PathView>::empty());
    while i < bases.len()
        invariant
            i <= bases@.len(),
            d == disk@,
            bv == path_views(bases@),
            path_views(r@) == disabled_first(d, bv, id@, i as int),
        decreases bases@.len() - i,
    {
        assert(bv[i as int] == bases@[i as int]@);
        let found = list_disabled_in(disk, &bases[i], id);
        append_paths(&mut r, found);
        i = i + 1;
    }
    r
}

/// Collects the files of a mod among the addons.
pub fn collect_game_vpks_for_mod(
    disk: &mut Disk,
    addons_root: &TreePath,
    mod_id: &str,
    known_vpks: &Vec<String>,
) -> (r: Vec<TreePath>)
    ensures
        ordered(*old(disk), *final(disk)),
        (final(disk)@, path_views(r@)) == game_files(
            old(disk)@,
            addons_root@,
            mod_id@,
            texts(known_vpks@),
        ),
{
    let bases = profile_bases(disk, addons_root);
    assert(path_views(bases@).len() == bases@.len());
    let (any, mut found) = list_recorded(disk, &bases, mod_id);
    let ghost recorded = path_views(found@);
    if !any {
        let guessed = list_known(disk, &bases, known_vpks);
        append_paths(&mut found, guessed);
    } else {
        assert(recorded + Seq::<PathView>::empty() =~= recorded);
    }
    let disabled = list_disabled(disk, &bases, mod_id);
    append_paths(&mut found, disabled);
    assert(key_values(found@) =~= path_views(found@));
    let r = order::sort_unique(&found);
    assert(key_values(r@) =~= path_views(r@));
    r
}

// ---------------------------------------------------------------------------
// Everything that is kept of a mod
// ---------------------------------------------------------------------------

/// The VPK files below a directory.
pub open spec fn kept_files(d: DiskView, dir: PathView) -> Seq<PathView> {
    paths_below(d, dir).filter(|p: PathView| is_file_at(d, p) && vpk_name(p.last()))
}

/// Collects the VPK files below a directory.
pub fn collect_vpk_files_recursive(disk: &Disk, dir: &TreePath) -> (r: Vec<TreePath>)
    ensures
        path_views(r@) == kept_files(disk@, dir@),
{
    let ghost d = disk@;
    let below = disk.below(dir);
    let ghost all = paths_below(d, dir@);
    let ghost pred = |p: PathView| is_file_at(d, p) && vpk_name(p.last());
    let mut r: Vec<TreePath> = Vec::new();
    let mut i: usize = 0;
    proof {
        reveal(Seq::filter);
        assert(all.take(0).filter(pred) =~= Seq::<PathView>::empty());
        assert(path_views(r@) =~= Seq::<PathView>::empty());
        lemma_filter_members(
            crate::disk::all_paths(d),
            |p: PathView| crate::disk::is_below(dir@, p),
        );
    }
    while i < below.len()
        invariant
            i <= below@.len(),
            d == disk@,
            path_views(below@) == all,
            forall|p: PathView| #[trigger] all.contains(p) ==> p.len() > 0,
            pred == (|p: PathView| is_file_at(d, p) && vpk_name(p.last())),
            path_views(r@) == all.take(i as int).filter(pred),
        decreases below@.len() - i,
    {
        let p = &below[i];
        proof {
            assert(all[i as int] == p@);
            assert(all.contains(p@));
            assert(all.take(i + 1) =~= all.take(i as int).push(p@));
            lemma_filter_push(all.take(i as int), p@, pred);
        }
        let n: usize = p.len();
        if disk.is_file(p) && path::is_vpk_name(p.part(n - 1)) {
            let q = p.duplicate();
            assert(path_views(r@.push(q)) =~= path_views(r@).push(q@));
            r.push(q);
        }
        i = i + 1;
    }
    assert(all.take(all.len() as int) =~= all);
    r
}

pub open spec fn opt_texts(v: Option<Vec<String>>) -> Option<Seq<Seq<char>>> {
    match v {
        Some(v) => Some(texts(v@)),
        None => None,
    }
}

/// The known files of a mod: as the manager knows them, else as the caller does.
pub open spec fn known_files(repo: RepoView, id: Seq<char>, given: Option<Seq<Seq<char>>>) -> Seq<
    Seq<char>,
> {
    if repo.contains_key(id) && repo[id].installed.len() > 0 {
        repo[id].installed
    } else {
        match given {
            Some(v) => v,
            None => Seq::empty(),
        }
    }
}

/// The files in which the hero of a mod is looked for: those among the addons,
/// then those kept below `store`.
pub open spec fn detection_files(
    d: DiskView,
    m: ManagerView,
    id: Seq<char>,
    given: Option<Seq<Seq<char>>>,
    store: Option<PathView>,
) -> (DiskView, Seq<PathView>) {
    let (d1, first) = match m.game_path {
        Some(g) => if crate::disk::exists_at(d, addons_root(g)) {
            game_files(d, addons_root(g), id, known_files(m.repo, id, given))
        } else {
            (d, Seq::empty())
        },
        None => (d, Seq::empty()),
    };
    (
        d1,
        first + match store {
            Some(dir) => if crate::disk::exists_at(d1, crate::path::path_join(dir, id)) {
                kept_files(d1, crate::path::path_join(dir, id))
            } else {
                Seq::empty()
            },
            None => Seq::empty(),
        },
    )
}

fn choose_known(manager: &ModManager, mod_id: &str, given: &Option<Vec<String>>) -> (r: Vec<String>)
    ensures
        texts(r@) == known_files(manager@.repo, mod_id@, opt_texts(*given)),
{
    match manager.get_mod(mod_id) {
        Some(m) => {
            assert(m@.installed.len() == m.installed_vpks@.len());
            if m.installed_vpks.len() > 0 {
                return m.installed_vpks;
            }
        },
        None => {},
    }
    match given {
        Some(v) => text::copy_texts(v),
        None => {
            let none: Vec<String> = Vec::new();
            assert(texts(none@) =~= Seq::<Seq<char>>::empty());
            none
        },
    }
}

/// Collects the files in which the hero of a mod is looked for. `store` is where
/// the files of downloaded mods are kept, each under its id.
pub fn collect_vpk_files_for_mod(
    manager: &ModManager,
    disk: &mut Disk,
    mod_id: &str,
    installed_vpks: &Option<Vec<String>>,
    store: &Option<TreePath>,
) -> (r: Vec<TreePath>)
    ensures
        ordered(*old(disk), *final(disk)),
        (final(disk)@, path_views(r@)) == detection_files(
            old(disk)@,
            manager@,
            mod_id@,
            opt_texts(*installed_vpks),
            crate::profiles::vpks::opt_path(*store),
        ),
{
    let mut r: Vec<TreePath> = Vec::new();
    assert(path_views(r@) =~= Seq::<PathView>::empty());
    match &manager.game_path {
        Some(g) => {
            let root = addons_root_of(g);
            if disk.has(&root) {
                let known = choose_known(manager, mod_id, installed_vpks);
                r = collect_game_vpks_for_mod(disk, &root, mod_id, &known);
            }
        },
        None => {},
    }
    let ghost first = path_views(r@);
    assert(first + Seq::<PathView>::empty() =~= first);
    match store {
        Some(dir) => {
            let kept = dir.join(mod_id);
            if disk.has(&kept) {
                let more = collect_vpk_files_recursive(disk, &kept);
                append_paths(&mut r, more);
            }
        },
        None => {},
    }
    r
}

pub struct RequestView {
    pub mod_id: Seq<char>,
    pub installed: Option<Seq<Seq<char>>>,
}

impl View for ModDetectionRequest {
    type V = RequestView;

    open spec fn view(&self) -> RequestView {
        RequestView { mod_id: self.mod_id@, installed: opt_texts(self.installed_vpks) }
    }
}

pub open spec fn request_views(v: Seq<ModDetectionRequest>) -> Seq<RequestView> {
    v.map_values(|q: ModDetectionRequest| q@)
}

pub open spec fn item_views(v: Seq<DetectionItem>) -> Seq<(Seq<char>, Seq<PathView>)> {
    v.map_values(|x: DetectionItem| (x.id@, path_views(x.vpk_paths@)))
}

/// The files for the first `k` requests.
pub open spec fn items_first(
    d: DiskView,
    m: ManagerView,
    requests: Seq<RequestView>,
    store: Option<PathView>,
    k: int,
) -> (DiskView, Seq<(Seq<char>, Seq<PathView>)>)
    decreases k,
{
    if k <= 0 {
        (d, Seq::empty())
    } else {
        let (d1, items) = items_first(d, m, requests, store, k - 1);
        let q = requests[k - 1];
        let (d2, files) = detection_files(d1, m, q.mod_id, q.installed, store);
        (d2, items.push((q.mod_id, files)))
    }
}

/// Collects the files for many mods at once.
pub fn collect_detection_items(
    manager: &ModManager,
    disk: &mut Disk,
    mods: &Vec<ModDetectionRequest>,
    store: &Option<TreePath>,
) -> (r: Vec<DetectionItem>)
    ensures
        ordered(*old(disk), *final(disk)),
        (final(disk)@, item_views(r@)) == items_first(
            old(disk)@,
            manager@,
            request_views(mods@),
            crate::profiles::vpks::opt_path(*store),
            mods@.len() as int,
        ),
{
    let ghost d = disk@;
    let ghost rv = request_views(mods@);
    let ghost sv = crate::profiles::vpks::opt_path(*store);
    let mut r: Vec<DetectionItem> = Vec::new();
    let mut i: usize = 0;
    assert(item_views(r@) =~= Seq::<(Seq<char>, Seq<PathView>)>::empty());
    while i < mods.len()
        invariant
            i <= mods@.len(),
            d == old(disk)@,
            ordered(*old(disk), *disk),
            rv == request_views(mods@),
            sv == crate::profiles::vpks::opt_path(*store),
            (disk@, item_views(r@)) == items_first(d, manager@, rv, sv, i as int),
        decreases mods@.len() - i,
    {
        assert(rv[i as int] == mods@[i as int]@);
        let vpk_paths = collect_vpk_files_for_mod(
            manager,
            disk,
            mods[i].mod_id.as_str(),
            &mods[i].installed_vpks,
            store,
        );
        let item = DetectionItem { id: mods[i].mod_id.clone(), vpk_paths };
        assert(item_views(r@.push(item)) =~= item_views(r@).push(
            (item.id@, path_views(item.vpk_paths@)),
        ));
        r.push(item);
        i = i + 1;
    }
    r
}

} // verus!
