//! How the mods of an import are fetched and installed.
use super::profile_made;
use super::import::{
    hex, hex_digit, import_prepared, import_stepped, imported_id, watched, ImportModView,
    ImportResultView, WatchAction, WatchEventView, WatchView,
};
use crate::disk::{exists_at, DiskView};
use crate::error::error_named;
use crate::manager::{addons_root, ManagerView, ModView};
use crate::manager::known::law_installed_mods_become_known;
use crate::manager::lifecycle::mod_installed;
use crate::path::{lemma_join_plain, plain_name, PathView};
use crate::text::dec;
use vstd::prelude::*;

verus! {

/// A number is written in sixteen digits, the last one for what is left of sixteens.
pub proof fn law_numbers_are_written_in_sixteens(n: nat, k: nat)
    requires
        k < 16,
    ensures
        hex(k) == seq!["0123456789abcdef"@[k as int]],
        n > 0 ==> hex(n * 16 + k) == hex(n).push("0123456789abcdef"@[k as int]),
{
    reveal_strlit("0123456789abcdef");
    assert(hex_digit(k) == "0123456789abcdef"@[k as int]);
    if n > 0 {
        assert((n * 16 + k) / 16 == n);
        assert((n * 16 + k) % 16 == k);
    }
}

/// The id of an imported profile tells the time it was made, in milliseconds and nanoseconds.
pub proof fn law_imported_ids_tell_their_time(millis: nat, nanos: nat)
    ensures
        imported_id(millis, nanos) == "profile_"@ + dec(millis) + "_"@ + hex(nanos),
{
}

/// A download is asked about every half second for ten minutes. Once it has ended its files are
/// looked for, up to ten times, after waits that double from a tenth of a second to one second.
/// It succeeds just where files are found, and fails when time or looks are used up, or when
/// something cannot be told.
pub proof fn law_downloads_are_watched(
    ms: u64,
    why: Seq<char>,
    looks: u32,
    delay_ms: u64,
    files: usize,
)
    requires
        delay_ms <= 1000,
    ensures
        ms < 600000 ==> watched(WatchView::Polling, WatchEventView::Elapsed { ms }) == (
            WatchView::Polling,
            WatchAction::WaitAndAsk { ms: 500 },
        ),
        ms >= 600000 ==> watched(WatchView::Polling, WatchEventView::Elapsed { ms }) == (
            WatchView::Settled(Err("Download timeout"@)),
            WatchAction::Stop,
        ),
        watched(WatchView::Polling, WatchEventView::Running) == (
            WatchView::Polling,
            WatchAction::TellTime,
        ),
        watched(WatchView::Polling, WatchEventView::Ended) == (
            WatchView::Looking { looks: 0, delay_ms: 100 },
            WatchAction::Look,
        ),
        watched(WatchView::Polling, WatchEventView::Unknown { why }) == (
            WatchView::Settled(Err("Failed to check download status: "@ + why)),
            WatchAction::Stop,
        ),
        ({
            let w = WatchView::Looking { looks, delay_ms };
            let (after, action) = watched(w, WatchEventView::Found { files });
            &&& files > 0 ==> (after, action) == (WatchView::Settled(Ok(())), WatchAction::Stop)
            &&& files == 0 && looks < 9 ==> {
                &&& action == (WatchAction::WaitAndLook { ms: delay_ms })
                &&& after is Looking
                &&& after->looks == looks + 1
                &&& after->delay_ms == (if delay_ms < 500 {
                    delay_ms * 2
                } else {
                    1000
                })
            }
            &&& files == 0 && looks >= 9 ==> (after, action) == (
                WatchView::Settled(Err("Download completed but no VPKs found"@)),
                WatchAction::Stop,
            )
            &&& watched(w, WatchEventView::Blind { why }) == (
                WatchView::Settled(Err("Failed to verify download: "@ + why)),
                WatchAction::Stop,
            )
        }),
{
}

/// Nothing is imported without mods. A new profile gets its own folder, and an overridden one
/// the folder that was given; either is there in the end.
pub proof fn law_imports_have_their_folder(
    d: DiskView,
    game: PathView,
    mods: nat,
    id: Seq<char>,
    name: Seq<char>,
    folder: Seq<char>,
    kind: Seq<char>,
)
    requires
        plain_name(folder),
    ensures
        import_prepared(d, Some(game), 0, kind, id, name, folder).0 == d,
        import_prepared(d, Some(game), 0, kind, id, name, folder).1 is Err,
        import_prepared(d, Some(game), 0, kind, id, name, folder).1->Err_0 is InvalidInput,
        mods > 0 ==> import_prepared(d, Some(game), mods, "create"@, id, name, folder)
            == profile_made(d, Some(game), id, name),
        mods > 0 && kind != "create"@ ==> {
            let (e, r) = import_prepared(d, Some(game), mods, kind, id, name, folder);
            r is Ok ==> r->Ok_0 == folder && exists_at(e, addons_root(game).push(folder))
        },
{
    lemma_join_plain(addons_root(game), folder);
}

/// A mod whose download failed is told with the reason, and changes nothing. One that was
/// downloaded is installed in the profile as it was described; if that succeeds it is told with
/// its enabled files, else with the reason. What was told before stays.
pub proof fn law_imported_mods_are_told(
    d: DiskView,
    m: ManagerView,
    r: ImportResultView,
    x: ImportModView,
    why: Seq<char>,
    asked: ModView,
)
    requires
        asked.id == x.mod_id,
        asked.name == x.mod_name,
        asked.is_map == x.is_map,
        asked.file_tree == x.file_tree,
        asked.installed == Seq::<Seq<char>>::empty(),
        asked.original == Seq::<Seq<char>>::empty(),
        asked.install_order is None,
    ensures
        ({
            let (e, repo, after) = import_stepped(d, m, r, x, Err(why));
            &&& e == d
            &&& repo == m.repo
            &&& after.failed == r.failed.push((x.mod_id, why))
            &&& after.succeeded == r.succeeded
            &&& after.installed == r.installed
            &&& after.profile_folder == r.profile_folder
        }),
        ({
            let (e, repo, after) = import_stepped(d, m, r, x, Ok(()));
            let (e1, repo1, out) = mod_installed(d, m, asked, Some(r.profile_folder));
            &&& e == e1
            &&& repo == repo1
            &&& after.profile_folder == r.profile_folder
            &&& out is Ok ==> {
                let told = after.installed.last();
                &&& after.succeeded == r.succeeded.push(x.mod_id)
                &&& after.failed == r.failed
                &&& after.installed.len() == r.installed.len() + 1
                &&& after.installed.drop_last() == r.installed
                &&& told.mod_id == x.mod_id
                &&& told.mod_name == x.mod_name
                &&& told.installed_vpks == out->Ok_0.installed
                &&& told.file_tree == out->Ok_0.file_tree
            }
            &&& out is Err ==> after.failed == r.failed.push((x.mod_id, error_named(out->Err_0)))
                && after.succeeded == r.succeeded && after.installed == r.installed
        }),
{
    let (e1, repo1, out) = mod_installed(d, m, asked, Some(r.profile_folder));
    let after = import_stepped(d, m, r, x, Ok(())).2;
    if out is Ok {
        law_installed_mods_become_known(d, m, asked, Some(r.profile_folder), out->Ok_0);
        assert(after.installed.drop_last() =~= r.installed);
    }
}

} // verus!
