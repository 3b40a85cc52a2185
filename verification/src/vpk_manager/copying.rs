//! Copying the VPK files of a mod into a profile, and replacing them.
use super::{operations, staging, VpkManager};
use super::operations::{prefixed, prefixed_found};
use crate::{path, text};
use crate::disk::{
    apply, cannot_text, exists_at, is_dir_at, is_file_at, legal, paths_below, Disk, DiskView,
    OpView,
};
use crate::error::{texts_result, unit_result, Error, ErrorView};
use crate::file_tree::{file_views, FileView, ModFileTree};
use crate::journal::{group_journal, undoable};
use crate::path::{path_join, path_text, vpk_name, PathView, TreePath};
use crate::text::{dec, quoted, replaced, texts};
use crate::vpk_manifest::path_views;
use vstd::prelude::*;
use vstd::string::*;

verus! {

broadcast use group_journal;

// ---------------------------------------------------------------------------
// Collecting
// ---------------------------------------------------------------------------

/// The VPK files below a directory, in the order of their paths.
pub open spec fn vpks_below(d: DiskView, dir: PathView) -> Seq<PathView> {
    paths_below(d, dir).filter(|p: PathView| is_file_at(d, p) && vpk_name(p.last()))
}

/// The VPK files below a directory, which has to be there.
pub open spec fn vpks_collected(d: DiskView, dir: PathView) -> Result<Seq<PathView>, ErrorView> {
    if !is_dir_at(d, dir) {
        Err(ErrorView::Io(cannot_text("list"@, dir)))
    } else {
        Ok(vpks_below(d, dir))
    }
}

/// The VPK files below a directory, in the order of their paths.
pub fn list_vpks_below(disk: &Disk, dir: &TreePath) -> (r: Vec<TreePath>)
    ensures
        path_views(r@) == vpks_below(disk@, dir@),
        forall|i: int| 0 <= i < r@.len() ==> (#[trigger] r@[i])@.len() > dir@.len(),
{
    let below = disk.below(dir);
    let ghost all = paths_below(disk@, dir@);
    let ghost pred = |p: PathView| is_file_at(disk@, p) && vpk_name(p.last());
    let mut r: Vec<TreePath> = Vec::new();
    let mut i: usize = 0;
    proof {
        reveal(Seq::filter);
        assert(all.take(0).filter(pred) =~= Seq::<PathView>::empty());
        assert(path_views(r@) =~= Seq::<PathView>::empty());
    }
    while i < below.len()
        invariant
            i <= below@.len(),
            path_views(below@) == all,
            all == paths_below(disk@, dir@),
            pred == (|p: PathView| is_file_at(disk@, p) && vpk_name(p.last())),
            path_views(r@) == all.take(i as int).filter(pred),
            forall|k: int| 0 <= k < r@.len() ==> (#[trigger] r@[k])@.len() > dir@.len(),
        decreases below@.len() - i,
    {
        proof {
            assert(all[i as int] == below@[i as int]@);
            assert(all.contains(all[i as int]));
            crate::disk::lemma_filter_members(
                crate::disk::all_paths(disk@),
                |p: PathView| crate::disk::is_below(dir@, p),
            );
            assert(all.take(i + 1) =~= all.take(i as int).push(all[i as int]));
            crate::disk::lemma_filter_push(all.take(i as int), all[i as int], pred);
        }
        let p = &below[i];
        if disk.is_file(p) && path::is_vpk_name(p.part(p.len() - 1)) {
            let q = p.duplicate();
            assert(path_views(r@.push(q)) =~= path_views(r@).push(q@));
            r.push(q);
        }
        i = i + 1;
    }
    assert(all.take(all.len() as int) =~= all);
    r
}

// ---------------------------------------------------------------------------
// Copying
// ---------------------------------------------------------------------------

/// Copying one file into a directory, under its name prefixed with the mod's id.
pub open spec fn copied_prefixed(
    s: (DiskView, Result<Seq<Seq<char>>, ErrorView>),
    to: PathView,
    id: Seq<char>,
    source: PathView,
) -> (DiskView, Result<Seq<Seq<char>>, ErrorView>) {
    let name = prefixed(id, source.last());
    let op = OpView::Copy(source, path_join(to, name));
    match s.1 {
        Err(e) => s,
        Ok(names) => if legal(s.0, op) {
            (apply(s.0, op), Ok(names.push(name)))
        } else {
            (s.0, Err(ErrorView::Io(cannot_text("copy"@, source))))
        },
    }
}

pub open spec fn copy_first(
    d: DiskView,
    to: PathView,
    id: Seq<char>,
    sources: Seq<PathView>,
    k: int,
) -> (DiskView, Result<Seq<Seq<char>>, ErrorView>)
    decreases k,
{
    if k <= 0 {
        (d, Ok(Seq::empty()))
    } else {
        copied_prefixed(copy_first(d, to, id, sources, k - 1), to, id, sources[k - 1])
    }
}

/// Copying every VPK file below `from`; a failure ends it where it is.
pub open spec fn all_copied(d: DiskView, from: PathView, to: PathView, id: Seq<char>) -> (
    DiskView,
    Result<Seq<Seq<char>>, ErrorView>,
) {
    match vpks_collected(d, from) {
        Err(e) => (d, Err(e)),
        Ok(sources) => copy_first(d, to, id, sources, sources.len() as int),
    }
}

proof fn lemma_copy_stops(
    d: DiskView,
    to: PathView,
    id: Seq<char>,
    sources: Seq<PathView>,
    k: int,
    n: int,
)
    requires
        0 <= k <= n,
        copy_first(d, to, id, sources, k).1 is Err,
    ensures
        copy_first(d, to, id, sources, n) == copy_first(d, to, id, sources, k),
    decreases n - k,
{
    if k < n {
        lemma_copy_stops(d, to, id, sources, k, n - 1);
    }
}

/// How a file below `root` is called in a file tree.
pub open spec fn relative_text(root: PathView, p: PathView) -> Seq<char> {
    replaced(path_text(p.skip(root.len() as int)), '\\', '/')
}

/// The last of the first `k` files that is called `want` in a file tree.
pub open spec fn find_relative(list: Seq<PathView>, root: PathView, want: Seq<char>, k: int) -> Option<
    PathView,
>
    decreases k,
{
    if k <= 0 {
        None
    } else if relative_text(root, list[k - 1]) == want {
        Some(list[k - 1])
    } else {
        find_relative(list, root, want, k - 1)
    }
}

/// The file that an entry of a file tree means, if it is chosen and there.
pub open spec fn chosen_source(list: Seq<PathView>, root: PathView, f: FileView) -> Option<
    PathView,
> {
    if f.is_selected {
        find_relative(list, root, replaced(f.path, '\\', '/'), list.len() as int)
    } else {
        None
    }
}

pub open spec fn copy_chosen_first(
    d: DiskView,
    list: Seq<PathView>,
    root: PathView,
    to: PathView,
    id: Seq<char>,
    files: Seq<FileView>,
    k: int,
) -> (DiskView, Result<Seq<Seq<char>>, ErrorView>)
    decreases k,
{
    if k <= 0 {
        (d, Ok(Seq::empty()))
    } else {
        let s = copy_chosen_first(d, list, root, to, id, files, k - 1);
        match chosen_source(list, root, files[k - 1]) {
            Some(p) => copied_prefixed(s, to, id, p),
            None => s,
        }
    }
}

/// Copying the chosen VPK files below `from`; those that are not there are
/// passed over.
pub open spec fn chosen_copied(
    d: DiskView,
    from: PathView,
    to: PathView,
    id: Seq<char>,
    files: Seq<FileView>,
) -> (DiskView, Result<Seq<Seq<char>>, ErrorView>) {
    match vpks_collected(d, from) {
        Err(e) => (d, Err(e)),
        Ok(list) => copy_chosen_first(d, list, from, to, id, files, files.len() as int),
    }
}

proof fn lemma_copy_chosen_stops(
    d: DiskView,
    list: Seq<PathView>,
    root: PathView,
    to: PathView,
    id: Seq<char>,
    files: Seq<FileView>,
    k: int,
    n: int,
)
    requires
        0 <= k <= n,
        copy_chosen_first(d, list, root, to, id, files, k).1 is Err,
    ensures
        copy_chosen_first(d, list, root, to, id, files, n) == copy_chosen_first(
            d,
            list,
            root,
            to,
            id,
            files,
            k,
        ),
    decreases n - k,
{
    if k < n {
        lemma_copy_chosen_stops(d, list, root, to, id, files, k, n - 1);
    }
}

fn find_chosen(list: &Vec<TreePath>, root: &TreePath, path: &str) -> (r: Option<TreePath>)
    requires
        forall|i: int| 0 <= i < list@.len() ==> (#[trigger] list@[i])@.len() > root@.len(),
    ensures
        match r {
            Some(p) => find_relative(
                path_views(list@),
                root@,
                replaced(path@, '\\', '/'),
                list@.len() as int,
            ) == Some(p@) && p@.len() > root@.len(),
            None => find_relative(
                path_views(list@),
                root@,
                replaced(path@, '\\', '/'),
                list@.len() as int,
            ) is None,
        },
{
    let want = text::replace_char(path, '\\', '/');
    let ghost all = path_views(list@);
    let mut k: usize = list.len();
    while k > 0
        invariant
            k <= list@.len(),
            all == path_views(list@),
            want@ == replaced(path@, '\\', '/'),
            forall|i: int| 0 <= i < list@.len() ==> (#[trigger] list@[i])@.len() > root@.len(),
            find_relative(all, root@, want@, list@.len() as int) == find_relative(
                all,
                root@,
                want@,
                k as int,
            ),
        decreases k,
    {
        let p = &list[k - 1];
        assert(all[k - 1] == p@);
        let rel = text::replace_char(p.rest(root.len()).to_text().as_str(), '\\', '/');
        if rel == want {
            return Some(p.duplicate());
        }
        k = k - 1;
    }
    None
}

/// Copies one file into a directory, under its name prefixed with the mod's id.
fn copy_prefixed(disk: &mut Disk, to: &TreePath, mod_id: &str, source: &TreePath) -> (r: Result<
    String,
    Error,
>)
    requires
        source@.len() > 0,
    ensures
        undoable(*old(disk), *final(disk)),
        forall|names: Seq<Seq<char>>|
            (match r {
                Ok(name) => (final(disk)@, Ok::<Seq<Seq<char>>, ErrorView>(names.push(name@))),
                Err(e) => (final(disk)@, Err(e@)),
            }) == #[trigger] copied_prefixed((old(disk)@, Ok(names)), to@, mod_id@, source@),
{
    let name = operations::prefixed_name(mod_id, source.part(source.len() - 1));
    disk.copy_file(source, &to.join(name.as_str()))?;
    Ok(name)
}

impl VpkManager {
    /// Copies the VPK files below a directory into another, each under its name
    /// prefixed with the mod's id.
    pub fn copy_vpks_with_prefix(
        &self,
        disk: &mut Disk,
        source_dir: &TreePath,
        destination_dir: &TreePath,
        mod_id: &str,
    ) -> (r: Result<Vec<String>, Error>)
        ensures
            undoable(*old(disk), *final(disk)),
            (final(disk)@, texts_result(r)) == all_copied(
                old(disk)@,
                source_dir@,
                destination_dir@,
                mod_id@,
            ),
    {
        if !disk.is_dir(source_dir) {
            return Err(staging::cannot_list(source_dir));
        }
        let sources = list_vpks_below(disk, source_dir);
        let ghost d = disk@;
        let ghost all = path_views(sources@);
        let mut out: Vec<String> = Vec::new();
        assert(texts(out@) =~= Seq::<Seq<char>>::empty());
        let mut i: usize = 0;
        while i < sources.len()
            invariant
                i <= sources@.len(),
                d == old(disk)@,
                is_dir_at(d, source_dir@),
                all == path_views(sources@),
                all == vpks_below(d, source_dir@),
                forall|k: int|
                    0 <= k < sources@.len() ==> (#[trigger] sources@[k])@.len() > source_dir@.len(),
                undoable(*old(disk), *disk),
                copy_first(d, destination_dir@, mod_id@, all, i as int) == (
                    disk@,
                    Ok::<Seq<Seq<char>>, ErrorView>(texts(out@)),
                ),
            decreases sources@.len() - i,
        {
            assert(all[i as int] == sources@[i as int]@);
            let ghost names = texts(out@);
            let ghost step = copied_prefixed(
                (disk@, Ok(names)),
                destination_dir@,
                mod_id@,
                all[i as int],
            );
            assert(copy_first(d, destination_dir@, mod_id@, all, i + 1) == step);
            match copy_prefixed(disk, destination_dir, mod_id, &sources[i]) {
                Ok(name) => {
                    proof {
                        text::lemma_texts_push(out@, name);
                    }
                    out.push(name);
                },
                Err(e) => {
                    proof {
                        lemma_copy_stops(
                            d,
                            destination_dir@,
                            mod_id@,
                            all,
                            i + 1,
                            all.len() as int,
                        );
                    }
                    return Err(e);
                },
            }
            i = i + 1;
        }
        Ok(out)
    }

    /// Copies the chosen VPK files below a directory into another, each under its
    /// name prefixed with the mod's id.
    pub fn copy_selected_vpks_with_prefix(
        &self,
        disk: &mut Disk,
        source_dir: &TreePath,
        destination_dir: &TreePath,
        mod_id: &str,
        file_tree: &ModFileTree,
    ) -> (r: Result<Vec<String>, Error>)
        ensures
            undoable(*old(disk), *final(disk)),
            (final(disk)@, texts_result(r)) == chosen_copied(
                old(disk)@,
                source_dir@,
                destination_dir@,
                mod_id@,
                file_tree@.files,
            ),
    {
        if !disk.is_dir(source_dir) {
            return Err(staging::cannot_list(source_dir));
        }
        let list = list_vpks_below(disk, source_dir);
        let ghost d = disk@;
        let ghost all = path_views(list@);
        let ghost files = file_views(file_tree.files@);
        let mut out: Vec<String> = Vec::new();
        assert(texts(out@) =~= Seq::<Seq<char>>::empty());
        let mut i: usize = 0;
        while i < file_tree.files.len()
            invariant
                i <= file_tree.files@.len(),
                d == old(disk)@,
                is_dir_at(d, source_dir@),
                all == path_views(list@),
                all == vpks_below(d, source_dir@),
                files == file_views(file_tree.files@),
                forall|k: int|
                    0 <= k < list@.len() ==> (#[trigger] list@[k])@.len() > source_dir@.len(),
                undoable(*old(disk), *disk),
                copy_chosen_first(
                    d,
                    all,
                    source_dir@,
                    destination_dir@,
                    mod_id@,
                    files,
                    i as int,
                ) == (disk@, Ok::<Seq<Seq<char>>, ErrorView>(texts(out@))),
            decreases file_tree.files@.len() - i,
        {
            assert(files[i as int] == file_tree.files@[i as int]@);
            assert(all.len() == list@.len());
            let chosen = if file_tree.files[i].is_selected {
                find_chosen(&list, source_dir, file_tree.files[i].path.as_str())
            } else {
                None
            };
            match chosen {
                Some(p) => {
                    let ghost names = texts(out@);
                    let ghost step = copied_prefixed(
                        (disk@, Ok(names)),
                        destination_dir@,
                        mod_id@,
                        p@,
                    );
                    assert(copy_chosen_first(
                        d,
                        all,
                        source_dir@,
                        destination_dir@,
                        mod_id@,
                        files,
                        i + 1,
                    ) == step);
                    match copy_prefixed(disk, destination_dir, mod_id, &p) {
                        Ok(name) => {
                            proof {
                                text::lemma_texts_push(out@, name);
                            }
                            out.push(name);
                        },
                        Err(e) => {
                            proof {
                                lemma_copy_chosen_stops(
                                    d,
                                    all,
                                    source_dir@,
                                    destination_dir@,
                                    mod_id@,
                                    files,
                                    i + 1,
                                    files.len() as int,
                                );
                            }
                            return Err(e);
                        },
                    }
                },
                None => {},
            }
            i = i + 1;
        }
        Ok(out)
    }
}

// ---------------------------------------------------------------------------
// Replacing
// ---------------------------------------------------------------------------

/// Copying the first `k` of a list of files over others; a target that is not
/// there is passed over, and a failure ends it where it is.
pub open spec fn replace_first(
    d: DiskView,
    dir: PathView,
    sources: Seq<PathView>,
    names: Seq<Seq<char>>,
    k: int,
) -> (DiskView, Result<(), ErrorView>)
    decreases k,
{
    if k <= 0 {
        (d, Ok(()))
    } else {
        let (d1, r) = replace_first(d, dir, sources, names, k - 1);
        let op = OpView::Copy(sources[k - 1], path_join(dir, names[k - 1]));
        match r {
            Err(e) => (d1, Err(e)),
            Ok(_) => if !exists_at(d1, path_join(dir, names[k - 1])) {
                (d1, Ok(()))
            } else if legal(d1, op) {
                (apply(d1, op), Ok(()))
            } else {
                (d1, Err(ErrorView::Io(cannot_text("copy"@, sources[k - 1]))))
            },
        }
    }
}

proof fn lemma_replace_stops(
    d: DiskView,
    dir: PathView,
    sources: Seq<PathView>,
    names: Seq<Seq<char>>,
    k: int,
    n: int,
)
    requires
        0 <= k <= n,
        replace_first(d, dir, sources, names, k).1 is Err,
    ensures
        replace_first(d, dir, sources, names, n) == replace_first(d, dir, sources, names, k),
    decreases n - k,
{
    if k < n {
        lemma_replace_stops(d, dir, sources, names, k, n - 1);
    }
}

/// What is said where the directory of a profile is not found. Its path stands between
/// quotes, in the `Debug` form of its text.
pub open spec fn not_found_text(p: PathView) -> Seq<char> {
    "Addons path not found: "@ + quoted(path_text(p))
}

/// The failure to find the directory of a profile.
pub fn addons_not_found(p: &TreePath) -> (r: Error)
    ensures
        r@ == ErrorView::Io(not_found_text(p@)),
{
    let t = p.to_text();
    let shown = text::quote(t.as_str());
    addons_not_found_at(shown.as_str())
}

/// The failure to find the directory that is written as `shown`.
pub fn addons_not_found_at(shown: &str) -> (r: Error)
    ensures
        r@ == ErrorView::Io("Addons path not found: "@ + shown@),
{
    let mut m: String = "Addons path not found: ".to_owned();
    m.append(shown);
    Error::Io(m)
}

pub open spec fn count_mismatch(what: Seq<char>, given: nat, wanted: nat) -> ErrorView {
    ErrorView::InvalidInput(
        "Replacement VPK count ("@ + dec(given) + ") does not match "@ + what + " VPK count ("@
            + dec(wanted) + ")"@,
    )
}

fn count_mismatch_error(what: &str, given: usize, wanted: usize) -> (r: Error)
    ensures
        r@ == count_mismatch(what@, given as nat, wanted as nat),
{
    let mut m: String = "Replacement VPK count (".to_owned();
    m.append(text::decimal(given as u64).as_str());
    m.append(") does not match ");
    m.append(what);
    m.append(" VPK count (");
    m.append(text::decimal(wanted as u64).as_str());
    m.append(")");
    Error::InvalidInput(m)
}

/// Replacing the files of a mod: the enabled ones where it is enabled, else the
/// disabled ones.
pub open spec fn replaced_vpks(
    d: DiskView,
    base: PathView,
    enabled_dir: PathView,
    id: Seq<char>,
    sources: Seq<PathView>,
    installed: Seq<Seq<char>>,
) -> (DiskView, Result<(), ErrorView>) {
    if sources.len() == 0 {
        (d, Err(ErrorView::InvalidInput("No VPK files provided for replacement"@)))
    } else if !exists_at(d, base) {
        (d, Err(ErrorView::Io(not_found_text(base))))
    } else if installed.len() > 0 {
        if sources.len() != installed.len() {
            (d, Err(count_mismatch("installed"@, sources.len(), installed.len())))
        } else {
            replace_first(
                d,
                enabled_dir,
                sources,
                operations::file_names(installed),
                sources.len() as int,
            )
        }
    } else {
        match prefixed_found(d, base, id) {
            Err(e) => (d, Err(e)),
            Ok(names) => if names.len() == 0 {
                (d, Err(ErrorView::ModFileNotFound))
            } else if sources.len() != names.len() {
                (d, Err(count_mismatch("mod"@, sources.len(), names.len())))
            } else {
                replace_first(d, base, sources, names, sources.len() as int)
            },
        }
    }
}

fn replace_files(
    disk: &mut Disk,
    dir: &TreePath,
    sources: &Vec<TreePath>,
    names: &Vec<String>,
) -> (r: Result<(), Error>)
    requires
        sources@.len() == names@.len(),
    ensures
        undoable(*old(disk), *final(disk)),
        (final(disk)@, unit_result(r)) == replace_first(
            old(disk)@,
            dir@,
            path_views(sources@),
            texts(names@),
            sources@.len() as int,
        ),
{
    let ghost d = disk@;
    let ghost sv = path_views(sources@);
    let ghost nv = texts(names@);
    let mut i: usize = 0;
    while i < sources.len()
        invariant
            i <= sources@.len() == names@.len(),
            d == old(disk)@,
            sv == path_views(sources@),
            nv == texts(names@),
            undoable(*old(disk), *disk),
            replace_first(d, dir@, sv, nv, i as int) == (disk@, Ok::<(), ErrorView>(())),
        decreases sources@.len() - i,
    {
        assert(sv[i as int] == sources@[i as int]@);
        assert(nv[i as int] == names@[i as int]@);
        let target = dir.join(names[i].as_str());
        if disk.has(&target) {
            match disk.copy_file(&sources[i], &target) {
                Ok(_) => {},
                Err(e) => {
                    proof {
                        assert(replace_first(d, dir@, sv, nv, i + 1).1 is Err);
                        lemma_replace_stops(d, dir@, sv, nv, i + 1, sources@.len() as int);
                    }
                    return Err(e);
                },
            }
        }
        i = i + 1;
    }
    Ok(())
}

impl VpkManager {
    /// Replaces the files of a mod with others, one for one.
    pub fn replace_vpks(
        &self,
        disk: &mut Disk,
        addons_path: &TreePath,
        enabled_dir: &TreePath,
        mod_id: &str,
        source_vpk_paths: &Vec<TreePath>,
        installed_vpks: &Vec<String>,
    ) -> (r: Result<(), Error>)
        ensures
            undoable(*old(disk), *final(disk)),
            (final(disk)@, unit_result(r)) == replaced_vpks(
                old(disk)@,
                addons_path@,
                enabled_dir@,
                mod_id@,
                path_views(source_vpk_paths@),
                texts(installed_vpks@),
            ),
    {
        assert(path_views(source_vpk_paths@).len() == source_vpk_paths@.len());
        assert(texts(installed_vpks@).len() == installed_vpks@.len());
        if source_vpk_paths.len() == 0 {
            return Err(Error::InvalidInput("No VPK files provided for replacement".to_owned()));
        }
        if !disk.has(addons_path) {
            return Err(addons_not_found(addons_path));
        }
        if installed_vpks.len() > 0 {
            if source_vpk_paths.len() != installed_vpks.len() {
                return Err(
                    count_mismatch_error(
                        "installed",
                        source_vpk_paths.len(),
                        installed_vpks.len(),
                    ),
                );
            }
            let names = operations::vpk_filenames(installed_vpks);
            replace_files(disk, enabled_dir, source_vpk_paths, &names)
        } else {
            let names = self.find_prefixed_vpks(disk, addons_path, mod_id)?;
            assert(texts(names@).len() == names@.len());
            if names.len() == 0 {
                return Err(Error::ModFileNotFound);
            }
            if source_vpk_paths.len() != names.len() {
                return Err(count_mismatch_error("mod", source_vpk_paths.len(), names.len()));
            }
            replace_files(disk, addons_path, source_vpk_paths, &names)
        }
    }
}

} // verus!
