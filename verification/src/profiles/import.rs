//! Importing the mods of a shared profile: one download after the other, then
//! one installation after the other.
use super::{create_profile_folder, folder_made, make_folder, profile_made, text_result};
use crate::text;
use crate::disk::{lemma_filter_push, Disk, DiskView};
use crate::error::{error_named, Error, ErrorView};
use crate::file_tree::{opt_tree, FileTreeView, ModFileTree};
use crate::journal::{group_journal, ordered};
use crate::manager::{with_repo, ManagerView, Mod, ModManager, ModView, RepoView};
use crate::manager::lifecycle::mod_installed;
use crate::path::PathView;
use crate::text::{dec, texts};
use vstd::prelude::*;
use vstd::string::*;

verus! {

broadcast use group_journal;

// ---------------------------------------------------------------------------
// The profile
// ---------------------------------------------------------------------------

pub open spec fn hex_digit(n: nat) -> char {
    if n < 10 {
        (n + ('0' as int)) as char
    } else {
        (n - 10 + ('a' as int)) as char
    }
}

/// `n` in hexadecimal notation, without leading zeros.
pub open spec fn hex(n: nat) -> Seq<char>
    decreases n,
{
    if n < 16 {
        seq![hex_digit(n)]
    } else {
        hex(n / 16).push(hex_digit(n % 16))
    }
}

/// The id of a profile made at a time in milliseconds and nanoseconds.
pub open spec fn imported_id(millis: nat, nanos: nat) -> Seq<char> {
    "profile_"@ + dec(millis) + "_"@ + hex(nanos)
}

fn hex_char(n: u32) -> (r: char)
    requires
        n < 16,
    ensures
        r == hex_digit(n as nat),
{
    if n < 10 {
        ('0' as u8 + n as u8) as char
    } else {
        ('a' as u8 + (n - 10) as u8) as char
    }
}

/// `n` in hexadecimal notation.
pub fn hexadecimal(n: u32) -> (r: String)
    ensures
        r@ == hex(n as nat),
    decreases n,
{
    let mut r: String = String::new();
    if n >= 16 {
        r = hexadecimal(n / 16);
    }
    let ghost before = r@;
    r.push(hex_char(n % 16));
    proof {
        if n < 16 {
            assert(before =~= Seq::<char>::empty());
            assert(r@ =~= seq![hex_digit(n as nat)]);
        }
    }
    r
}

/// The id of a profile made at a time in milliseconds and nanoseconds.
pub fn imported_profile_id(timestamp_ms: u64, nanos: u32) -> (r: String)
    ensures
        r@ == imported_id(timestamp_ms as nat, nanos as nat),
{
    let mut r: String = "profile_".to_owned();
    r.append(text::decimal(timestamp_ms).as_str());
    r.append("_");
    r.append(hexadecimal(nanos).as_str());
    r
}

/// Preparing the folder that mods are imported to: a new profile, or one that is
/// overridden.
pub open spec fn import_prepared(
    d: DiskView,
    game: Option<PathView>,
    mods: nat,
    import_type: Seq<char>,
    id: Seq<char>,
    name: Seq<char>,
    folder: Seq<char>,
) -> (DiskView, Result<Seq<char>, ErrorView>) {
    if mods == 0 {
        (d, Err(ErrorView::InvalidInput("No mods provided for import"@)))
    } else if import_type == "create"@ {
        profile_made(d, game, id, name)
    } else {
        let (d1, r) = folder_made(d, game, folder);
        match r {
            Err(e) => (d1, Err(e)),
            Ok(_) => (d1, Ok(folder)),
        }
    }
}

/// Prepares the folder that `mods` mods are imported to, and returns its name.
pub fn prepare_import(
    manager: &ModManager,
    disk: &mut Disk,
    mods: usize,
    import_type: &str,
    profile_id: &str,
    profile_name: &str,
    profile_folder: &str,
) -> (r: Result<String, Error>)
    ensures
        ordered(*old(disk), *final(disk)),
        (final(disk)@, text_result(r)) == import_prepared(
            old(disk)@,
            manager@.game_path,
            mods as nat,
            import_type@,
            profile_id@,
            profile_name@,
            profile_folder@,
        ),
{
    if mods == 0 {
        return Err(Error::InvalidInput("No mods provided for import".to_owned()));
    }
    if text::same_text(import_type, "create") {
        create_profile_folder(manager, disk, profile_id, profile_name)
    } else {
        make_folder(manager, disk, profile_folder)?;
        Ok(profile_folder.to_owned())
    }
}

// ---------------------------------------------------------------------------
// Waiting for a download
// ---------------------------------------------------------------------------

/// How long a download may take.
pub const DOWNLOAD_TIMEOUT_MS: u64 = 600000;

/// How long to wait before asking for the state of a download.
pub const POLL_INTERVAL_MS: u64 = 500;

/// How many times the files of a finished download are looked for.
pub const MAX_LOOKS: u32 = 10;

/// How long to wait after the first look, and at most.
pub const FIRST_DELAY_MS: u64 = 100;

pub const MAX_DELAY_MS: u64 = 1000;

/// What is known of a download.
#[derive(Debug)]
pub enum Watch {
    /// It is under way.
    Polling,
    /// It has ended; `looks` times its files were looked for in vain.
    Looking { looks: u32, delay_ms: u64 },
    /// It is settled: the files are there, or why they are not.
    Settled(Result<(), String>),
}

pub enum WatchView {
    Polling,
    Looking { looks: u32, delay_ms: u64 },
    Settled(Result<(), Seq<char>>),
}

/// What happened.
#[derive(Debug)]
pub enum WatchEvent {
    /// This much time has gone by since the download began.
    Elapsed { ms: u64 },
    /// The download is still running.
    Running,
    /// The download is not running any more, or not known any more.
    Ended,
    /// Its state could not be told.
    Unknown { why: String },
    /// This many files of the mod are there.
    Found { files: usize },
    /// The files could not be looked for.
    Blind { why: String },
}

pub enum WatchEventView {
    Elapsed { ms: u64 },
    Running,
    Ended,
    Unknown { why: Seq<char> },
    Found { files: usize },
    Blind { why: Seq<char> },
}

/// What to do next.
#[derive(Debug, Clone, Copy, PartialEq, Eq, Structural)]
pub enum WatchAction {
    /// Wait, then ask for the state of the download.
    WaitAndAsk { ms: u64 },
    /// Tell how much time has gone by.
    TellTime,
    /// Look for the files of the mod.
    Look,
    /// Wait, then look for the files of the mod.
    WaitAndLook { ms: u64 },
    /// Nothing more.
    Stop,
}

pub open spec fn outcome_view(r: Result<(), String>) -> Result<(), Seq<char>> {
    match r {
        Ok(_) => Ok(()),
        Err(e) => Err(e@),
    }
}

impl View for Watch {
    type V = WatchView;

    open spec fn view(&self) -> WatchView {
        match self {
            Watch::Polling => WatchView::Polling,
            Watch::Looking { looks, delay_ms } => WatchView::Looking {
                looks: *looks,
                delay_ms: *delay_ms,
            },
            Watch::Settled(r) => WatchView::Settled(outcome_view(*r)),
        }
    }
}

impl View for WatchEvent {
    type V = WatchEventView;

    open spec fn view(&self) -> WatchEventView {
        match self {
            WatchEvent::Elapsed { ms } => WatchEventView::Elapsed { ms: *ms },
            WatchEvent::Running => WatchEventView::Running,
            WatchEvent::Ended => WatchEventView::Ended,
            WatchEvent::Unknown { why } => WatchEventView::Unknown { why: why@ },
            WatchEvent::Found { files } => WatchEventView::Found { files: *files },
            WatchEvent::Blind { why } => WatchEventView::Blind { why: why@ },
        }
    }
}

/// The wait after the next look in vain: twice as long, up to a limit.
pub open spec fn next_delay(ms: u64) -> u64 {
    if ms * 2 < MAX_DELAY_MS {
        (ms * 2) as u64
    } else {
        MAX_DELAY_MS
    }
}

/// What is known after an event, and what to do next. An event that does not fit
/// changes nothing.
pub open spec fn watched(w: WatchView, e: WatchEventView) -> (WatchView, WatchAction) {
    match (w, e) {
        (WatchView::Polling, WatchEventView::Elapsed { ms }) => if ms < DOWNLOAD_TIMEOUT_MS {
            (WatchView::Polling, WatchAction::WaitAndAsk { ms: POLL_INTERVAL_MS })
        } else {
            (WatchView::Settled(Err("Download timeout"@)), WatchAction::Stop)
        },
        (WatchView::Polling, WatchEventView::Running) => (
            WatchView::Polling,
            WatchAction::TellTime,
        ),
        (WatchView::Polling, WatchEventView::Ended) => (
            WatchView::Looking { looks: 0, delay_ms: FIRST_DELAY_MS },
            WatchAction::Look,
        ),
        (WatchView::Polling, WatchEventView::Unknown { why }) => (
            WatchView::Settled(Err("Failed to check download status: "@ + why)),
            WatchAction::Stop,
        ),
        (WatchView::Polling, _) => (WatchView::Polling, WatchAction::TellTime),
        (WatchView::Looking { looks, delay_ms }, WatchEventView::Found { files }) => if files > 0 {
            (WatchView::Settled(Ok(())), WatchAction::Stop)
        } else if looks + 1 < MAX_LOOKS {
            (
                WatchView::Looking { looks: (looks + 1) as u32, delay_ms: next_delay(delay_ms) },
                WatchAction::WaitAndLook { ms: delay_ms },
            )
        } else {
            (
                WatchView::Settled(Err("Download completed but no VPKs found"@)),
                WatchAction::Stop,
            )
        },
        (WatchView::Looking { looks, delay_ms }, WatchEventView::Blind { why }) => (
            WatchView::Settled(Err("Failed to verify download: "@ + why)),
            WatchAction::Stop,
        ),
        (WatchView::Looking { looks, delay_ms }, _) => (w, WatchAction::Look),
        (WatchView::Settled(r), _) => (w, WatchAction::Stop),
    }
}

fn settled(what: &str, why: &str) -> (r: Watch)
    ensures
        r@ == WatchView::Settled(Err(what@ + why@)),
{
    let mut m: String = what.to_owned();
    m.append(why);
    Watch::Settled(Err(m))
}

impl Watch {
    /// A download that was just queued; the time is to be told first.
    pub fn new() -> (r: Watch)
        ensures
            r@ == WatchView::Polling,
    {
        Watch::Polling
    }

    /// Takes in an event, and says what to do next.
    pub fn take(&mut self, event: WatchEvent) -> (r: WatchAction)
        ensures
            (final(self)@, r) == watched(old(self)@, event@),
    {
        match self {
            Watch::Polling => match event {
                WatchEvent::Elapsed { ms } => {
                    if ms < DOWNLOAD_TIMEOUT_MS {
                        WatchAction::WaitAndAsk { ms: POLL_INTERVAL_MS }
                    } else {
                        *self = Watch::Settled(Err("Download timeout".to_owned()));
                        WatchAction::Stop
                    }
                },
                WatchEvent::Running => WatchAction::TellTime,
                WatchEvent::Ended => {
                    *self = Watch::Looking { looks: 0, delay_ms: FIRST_DELAY_MS };
                    WatchAction::Look
                },
                WatchEvent::Unknown { why } => {
                    *self = settled("Failed to check download status: ", why.as_str());
                    WatchAction::Stop
                },
                _ => WatchAction::TellTime,
            },
            Watch::Looking { looks, delay_ms } => {
                let n: u32 = *looks;
                let ms: u64 = *delay_ms;
                match event {
                    WatchEvent::Found { files } => {
                        if files > 0 {
                            *self = Watch::Settled(Ok(()));
                            WatchAction::Stop
                        } else if n < MAX_LOOKS - 1 {
                            let twice: u64 = if ms < MAX_DELAY_MS / 2 {
                                ms * 2
                            } else {
                                MAX_DELAY_MS
                            };
                            *self = Watch::Looking { looks: n + 1, delay_ms: twice };
                            WatchAction::WaitAndLook { ms }
                        } else {
                            *self = Watch::Settled(
                                Err("Download completed but no VPKs found".to_owned()),
                            );
                            WatchAction::Stop
                        }
                    },
                    WatchEvent::Blind { why } => {
                        *self = settled("Failed to verify download: ", why.as_str());
                        WatchAction::Stop
                    },
                    _ => WatchAction::Look,
                }
            },
            Watch::Settled(_) => WatchAction::Stop,
        }
    }
}

/// How many more looks in vain a download can take.
pub open spec fn looks_left(w: WatchView) -> nat {
    match w {
        WatchView::Looking { looks, delay_ms } => if looks < MAX_LOOKS {
            (MAX_LOOKS - looks) as nat
        } else {
            0
        },
        _ => 0,
    }
}

/// Looking for the files of a download comes to an end: each look either settles
/// it, or leaves one look fewer. No wait between two looks is longer than the
/// limit.
pub proof fn law_looking_ends(looks: u32, delay_ms: u64, files: usize)
    requires
        looks < MAX_LOOKS,
        delay_ms <= MAX_DELAY_MS,
    ensures
        ({
            let w = WatchView::Looking { looks, delay_ms };
            let (after, action) = watched(w, WatchEventView::Found { files });
            after is Settled || (looks_left(after) < looks_left(w) && after->delay_ms
                <= MAX_DELAY_MS && action == (WatchAction::WaitAndLook { ms: delay_ms }))
        }),
{
}

/// A settled download stays as it is.
pub proof fn law_settled_downloads_stay(r: Result<(), Seq<char>>, e: WatchEventView)
    ensures
        watched(WatchView::Settled(r), e) == (WatchView::Settled(r), WatchAction::Stop),
{
}

// ---------------------------------------------------------------------------
// Installing what was downloaded
// ---------------------------------------------------------------------------

/// A mod to import.
pub struct ImportMod {
    pub mod_id: String,
    pub mod_name: String,
    pub is_map: bool,
    pub file_tree: Option<ModFileTree>,
}

pub struct ImportModView {
    pub mod_id: Seq<char>,
    pub mod_name: Seq<char>,
    pub is_map: bool,
    pub file_tree: Option<FileTreeView>,
}

impl View for ImportMod {
    type V = ImportModView;

    open spec fn view(&self) -> ImportModView {
        ImportModView {
            mod_id: self.mod_id@,
            mod_name: self.mod_name@,
            is_map: self.is_map,
            file_tree: opt_tree(self.file_tree),
        }
    }
}

/// A mod that was installed.
#[derive(Debug)]
pub struct InstalledModInfo {
    pub mod_id: String,
    pub mod_name: String,
    pub installed_vpks: Vec<String>,
    pub file_tree: Option<ModFileTree>,
}

pub struct InstalledView {
    pub mod_id: Seq<char>,
    pub mod_name: Seq<char>,
    pub installed_vpks: Seq<Seq<char>>,
    pub file_tree: Option<FileTreeView>,
}

impl View for InstalledModInfo {
    type V = InstalledView;

    open spec fn view(&self) -> InstalledView {
        InstalledView {
            mod_id: self.mod_id@,
            mod_name: self.mod_name@,
            installed_vpks: texts(self.installed_vpks@),
            file_tree: opt_tree(self.file_tree),
        }
    }
}

/// What became of the mods of an import.
#[derive(Debug)]
pub struct ProfileImportResult {
    pub profile_folder: String,
    pub succeeded: Vec<String>,
    pub failed: Vec<(String, String)>,
    pub installed_mods: Vec<InstalledModInfo>,
}

pub struct ImportResultView {
    pub profile_folder: Seq<char>,
    pub succeeded: Seq<Seq<char>>,
    pub failed: Seq<(Seq<char>, Seq<char>)>,
    pub installed: Seq<InstalledView>,
}

pub open spec fn failure_views(v: Seq<(String, String)>) -> Seq<(Seq<char>, Seq<char>)> {
    v.map_values(|f: (String, String)| (f.0@, f.1@))
}

pub open spec fn installed_views(v: Seq<InstalledModInfo>) -> Seq<InstalledView> {
    v.map_values(|i: InstalledModInfo| i@)
}

impl View for ProfileImportResult {
    type V = ImportResultView;

    open spec fn view(&self) -> ImportResultView {
        ImportResultView {
            profile_folder: self.profile_folder@,
            succeeded: texts(self.succeeded@),
            failed: failure_views(self.failed@),
            installed: installed_views(self.installed_mods@),
        }
    }
}

pub open spec fn import_begun(folder: Seq<char>) -> ImportResultView {
    ImportResultView {
        profile_folder: folder,
        succeeded: Seq::empty(),
        failed: Seq::empty(),
        installed: Seq::empty(),
    }
}

/// A mod to import, before it is installed.
pub open spec fn fresh_mod(x: ImportModView) -> ModView {
    ModView {
        id: x.mod_id,
        name: x.mod_name,
        is_map: x.is_map,
        installed: Seq::empty(),
        file_tree: x.file_tree,
        install_order: None,
        original: Seq::empty(),
    }
}

pub open spec fn with_failure(r: ImportResultView, id: Seq<char>, why: Seq<char>) -> ImportResultView {
    ImportResultView { failed: r.failed.push((id, why)), ..r }
}

pub open spec fn with_installed(r: ImportResultView, id: Seq<char>, x: ModView) -> ImportResultView {
    ImportResultView {
        succeeded: r.succeeded.push(id),
        installed: r.installed.push(
            InstalledView {
                mod_id: x.id,
                mod_name: x.name,
                installed_vpks: x.installed,
                file_tree: x.file_tree,
            },
        ),
        ..r
    }
}

/// Installing one mod of an import, if it was downloaded.
pub open spec fn import_stepped(
    d: DiskView,
    m: ManagerView,
    r: ImportResultView,
    x: ImportModView,
    downloaded: Result<(), Seq<char>>,
) -> (DiskView, RepoView, ImportResultView) {
    match downloaded {
        Err(why) => (d, m.repo, with_failure(r, x.mod_id, why)),
        Ok(_) => {
            let (d1, repo, out) = mod_installed(d, m, fresh_mod(x), Some(r.profile_folder));
            match out {
                Ok(y) => (d1, repo, with_installed(r, x.mod_id, y)),
                Err(e) => (d1, repo, with_failure(r, x.mod_id, error_named(e))),
            }
        },
    }
}

/// Installing the first `k` mods of an import.
pub open spec fn import_first(
    d: DiskView,
    m: ManagerView,
    folder: Seq<char>,
    mods: Seq<ImportModView>,
    downloads: Seq<Result<(), Seq<char>>>,
    k: int,
) -> (DiskView, RepoView, ImportResultView)
    decreases k,
{
    if k <= 0 {
        (d, m.repo, import_begun(folder))
    } else {
        let (d1, repo, r) = import_first(d, m, folder, mods, downloads, k - 1);
        import_stepped(d1, with_repo(m, repo), r, mods[k - 1], downloads[k - 1])
    }
}

/// Whether mod `i` of an import is installed.
pub open spec fn import_succeeds(
    d: DiskView,
    m: ManagerView,
    folder: Seq<char>,
    mods: Seq<ImportModView>,
    downloads: Seq<Result<(), Seq<char>>>,
    i: int,
) -> bool {
    let (d1, repo, r) = import_first(d, m, folder, mods, downloads, i);
    downloads[i] is Ok && mod_installed(
        d1,
        with_repo(m, repo),
        fresh_mod(mods[i]),
        Some(folder),
    ).2 is Ok
}

/// The numbers from 0 to `k - 1`.
pub open spec fn first_numbers(k: int) -> Seq<int> {
    Seq::new(k as nat, |i: int| i)
}

/// Every mod of an import either succeeded or failed, in the order of the mods: those
/// that succeeded are the ones that were downloaded and installed, and all others
/// failed. A mod that was not downloaded failed for the reason that its download did.
pub proof fn law_each_import_has_one_outcome(
    d: DiskView,
    m: ManagerView,
    folder: Seq<char>,
    mods: Seq<ImportModView>,
    downloads: Seq<Result<(), Seq<char>>>,
    k: int,
)
    requires
        0 <= k <= mods.len() == downloads.len(),
    ensures
        ({
            let r = import_first(d, m, folder, mods, downloads, k).2;
            let good = |i: int| import_succeeds(d, m, folder, mods, downloads, i);
            let bad = |i: int| !import_succeeds(d, m, folder, mods, downloads, i);
            let id = |i: int| mods[i].mod_id;
            &&& r.profile_folder == folder
            &&& r.succeeded == first_numbers(k).filter(good).map_values(id)
            &&& r.installed.map_values(|x: InstalledView| x.mod_id) == r.succeeded
            &&& r.failed.map_values(|f: (Seq<char>, Seq<char>)| f.0) == first_numbers(k).filter(
                bad,
            ).map_values(id)
            &&& r.succeeded.len() + r.failed.len() == k
            &&& forall|i: int|
                0 <= i < k && (#[trigger] downloads[i]) is Err ==> r.failed.contains(
                    (mods[i].mod_id, downloads[i]->Err_0),
                )
        }),
{
    lemma_import_outcomes(d, m, folder, mods, downloads, k);
    lemma_failed_downloads(d, m, folder, mods, downloads, k);
}

/// What succeeded and what failed among the first `k` mods of an import.
#[verifier::spinoff_prover]
#[verifier::rlimit(30)]
proof fn lemma_import_outcomes(
    d: DiskView,
    m: ManagerView,
    folder: Seq<char>,
    mods: Seq<ImportModView>,
    downloads: Seq<Result<(), Seq<char>>>,
    k: int,
)
    requires
        0 <= k <= mods.len() == downloads.len(),
    ensures
        ({
            let r = import_first(d, m, folder, mods, downloads, k).2;
            let good = |i: int| import_succeeds(d, m, folder, mods, downloads, i);
            let bad = |i: int| !import_succeeds(d, m, folder, mods, downloads, i);
            let id = |i: int| mods[i].mod_id;
            &&& r.profile_folder == folder
            &&& r.succeeded == first_numbers(k).filter(good).map_values(id)
            &&& r.installed.map_values(|x: InstalledView| x.mod_id) == r.succeeded
            &&& r.failed.map_values(|f: (Seq<char>, Seq<char>)| f.0) == first_numbers(k).filter(
                bad,
            ).map_values(id)
            &&& r.succeeded.len() + r.failed.len() == k
        }),
    decreases k,
{
    let r = import_first(d, m, folder, mods, downloads, k).2;
    let good = |i: int| import_succeeds(d, m, folder, mods, downloads, i);
    let bad = |i: int| !import_succeeds(d, m, folder, mods, downloads, i);
    let id = |i: int| mods[i].mod_id;
    let own = |x: InstalledView| x.mod_id;
    let whose = |f: (Seq<char>, Seq<char>)| f.0;
    if k == 0 {
        reveal(Seq::filter);
        assert(first_numbers(0).filter(good) =~= Seq::<int>::empty());
        assert(first_numbers(0).filter(bad) =~= Seq::<int>::empty());
        assert(r.succeeded =~= Seq::<int>::empty().map_values(id));
        assert(r.failed.map_values(whose) =~= Seq::<int>::empty().map_values(id));
        assert(r.installed.map_values(own) =~= r.succeeded);
    } else {
        lemma_import_outcomes(d, m, folder, mods, downloads, k - 1);
        let was = import_first(d, m, folder, mods, downloads, k - 1).2;
        let n = first_numbers(k - 1);
        assert(first_numbers(k) =~= n.push(k - 1));
        lemma_filter_push(n, k - 1, good);
        lemma_filter_push(n, k - 1, bad);
        let a = n.filter(good);
        let b = n.filter(bad);
        assert(a.push(k - 1).map_values(id) =~= a.map_values(id).push(id(k - 1)));
        assert(b.push(k - 1).map_values(id) =~= b.map_values(id).push(id(k - 1)));
        if good(k - 1) {
            let x = r.installed.last();
            assert(r.installed =~= was.installed.push(x));
            assert(r.installed.map_values(own) =~= was.installed.map_values(own).push(x.mod_id));
        } else {
            let f = r.failed.last();
            assert(r.failed =~= was.failed.push(f));
            assert(r.failed.map_values(whose) =~= was.failed.map_values(whose).push(f.0));
        }
    }
}

#[verifier::spinoff_prover]
#[verifier::rlimit(30)]
proof fn lemma_failed_downloads(
    d: DiskView,
    m: ManagerView,
    folder: Seq<char>,
    mods: Seq<ImportModView>,
    downloads: Seq<Result<(), Seq<char>>>,
    k: int,
)
    requires
        0 <= k <= mods.len() == downloads.len(),
    ensures
        ({
            let r = import_first(d, m, folder, mods, downloads, k).2;
            forall|i: int|
                0 <= i < k && (#[trigger] downloads[i]) is Err ==> r.failed.contains(
                    (mods[i].mod_id, downloads[i]->Err_0),
                )
        }),
    decreases k,
{
    let r = import_first(d, m, folder, mods, downloads, k).2;
    if k > 0 {
        lemma_failed_downloads(d, m, folder, mods, downloads, k - 1);
        let was = import_first(d, m, folder, mods, downloads, k - 1).2;
        assert(was.failed =~= r.failed.take(was.failed.len() as int));
        if downloads[k - 1] is Err {
            assert(r.failed[was.failed.len() as int] == (
                mods[k - 1].mod_id,
                downloads[k - 1]->Err_0,
            ));
        }
        assert forall|i: int|
            0 <= i < k && (#[trigger] downloads[i]) is Err implies r.failed.contains(
            (mods[i].mod_id, downloads[i]->Err_0),
        ) by {
            if i < k - 1 {
                let f = (mods[i].mod_id, downloads[i]->Err_0);
                assert(was.failed.contains(f));
                let j = choose|j: int| 0 <= j < was.failed.len() && was.failed[j] == f;
                assert(r.failed[j] == f);
            }
        }
    }
}

impl ProfileImportResult {
    pub fn new(profile_folder: String) -> (r: ProfileImportResult)
        ensures
            r@ == import_begun(profile_folder@),
    {
        let r = ProfileImportResult {
            profile_folder,
            succeeded: Vec::new(),
            failed: Vec::new(),
            installed_mods: Vec::new(),
        };
        assert(texts(r.succeeded@) =~= Seq::<Seq<char>>::empty());
        assert(failure_views(r.failed@) =~= Seq::<(Seq<char>, Seq<char>)>::empty());
        assert(installed_views(r.installed_mods@) =~= Seq::<InstalledView>::empty());
        r
    }

    fn note_failure(&mut self, id: &str, why: String)
        ensures
            final(self)@ == with_failure(old(self)@, id@, why@),
    {
        let ghost before = self@;
        self.failed.push((id.to_owned(), why));
        assert(failure_views(self.failed@) =~= before.failed.push((id@, why@)));
    }

    fn note_installed(&mut self, id: &str, x: Mod)
        ensures
            final(self)@ == with_installed(old(self)@, id@, x@),
    {
        let ghost before = self@;
        let ghost xv = x@;
        self.succeeded.push(id.to_owned());
        self.installed_mods.push(
            InstalledModInfo {
                mod_id: x.id,
                mod_name: x.name,
                installed_vpks: x.installed_vpks,
                file_tree: x.file_tree,
            },
        );
        assert(texts(self.succeeded@) =~= before.succeeded.push(id@));
        assert(installed_views(self.installed_mods@) =~= with_installed(before, id@, xv).installed);
    }

    /// Installs one mod of the import, if it was downloaded, and notes the outcome.
    pub fn import(
        &mut self,
        manager: &mut ModManager,
        disk: &mut Disk,
        x: &ImportMod,
        downloaded: Result<(), String>,
    )
        ensures
            ordered(*old(disk), *final(disk)),
            ({
                let (d, repo, out) = import_stepped(
                    old(disk)@,
                    old(manager)@,
                    old(self)@,
                    x@,
                    outcome_view(downloaded),
                );
                final(disk)@ == d && final(manager)@ == with_repo(old(manager)@, repo)
                    && final(self)@ == out
            }),
    {
        assert(with_repo(manager@, manager@.repo) == manager@);
        match downloaded {
            Err(why) => {
                self.note_failure(x.mod_id.as_str(), why);
            },
            Ok(_) => {
                let fresh = Mod {
                    id: x.mod_id.clone(),
                    name: x.mod_name.clone(),
                    is_map: x.is_map,
                    installed_vpks: Vec::new(),
                    file_tree: match &x.file_tree {
                        Some(t) => Some(t.duplicate()),
                        None => None,
                    },
                    install_order: None,
                    original_vpk_names: Vec::new(),
                };
                proof {
                    assert(texts(fresh.installed_vpks@) =~= Seq::<Seq<char>>::empty());
                    assert(texts(fresh.original_vpk_names@) =~= Seq::<Seq<char>>::empty());
                    assert(fresh@ == fresh_mod(x@));
                }
                let folder: Option<String> = Some(self.profile_folder.clone());
                match manager.install_mod(disk, fresh, &folder) {
                    Ok(y) => {
                        self.note_installed(x.mod_id.as_str(), y);
                    },
                    Err(e) => {
                        self.note_failure(x.mod_id.as_str(), e.named());
                    },
                }
            },
        }
    }
}

/// What each mod of an import is, and what became of its download.
pub open spec fn asked_mods(v: Seq<(ImportMod, Result<(), String>)>) -> Seq<ImportModView> {
    v.map_values(|x: (ImportMod, Result<(), String>)| x.0@)
}

pub open spec fn asked_outcomes(v: Seq<(ImportMod, Result<(), String>)>) -> Seq<
    Result<(), Seq<char>>,
> {
    v.map_values(|x: (ImportMod, Result<(), String>)| outcome_view(x.1))
}

/// Installs the mods of an import that were downloaded; each comes with the outcome of
/// its download.
pub fn import_profile_batch(
    manager: &mut ModManager,
    disk: &mut Disk,
    profile_folder: String,
    imports: &Vec<(ImportMod, Result<(), String>)>,
) -> (r: ProfileImportResult)
    ensures
        ordered(*old(disk), *final(disk)),
        ({
            let (d, repo, out) = import_first(
                old(disk)@,
                old(manager)@,
                profile_folder@,
                asked_mods(imports@),
                asked_outcomes(imports@),
                imports@.len() as int,
            );
            final(disk)@ == d && final(manager)@ == with_repo(old(manager)@, repo) && r@ == out
        }),
{
    let ghost d = disk@;
    let ghost m = manager@;
    let ghost folder = profile_folder@;
    let ghost mv = asked_mods(imports@);
    let ghost dv = asked_outcomes(imports@);
    let mut r = ProfileImportResult::new(profile_folder);
    let mut i: usize = 0;
    assert(with_repo(m, m.repo) == m);
    while i < imports.len()
        invariant
            i <= imports@.len(),
            mv == asked_mods(imports@),
            dv == asked_outcomes(imports@),
            ordered(*old(disk), *disk),
            ({
                let (d1, repo, out) = import_first(d, m, folder, mv, dv, i as int);
                disk@ == d1 && manager@ == with_repo(m, repo) && r@ == out
            }),
        decreases imports@.len() - i,
    {
        let downloaded = match &imports[i].1 {
            Ok(_) => Ok(()),
            Err(e) => Err(e.clone()),
        };
        proof {
            assert(mv[i as int] == imports@[i as int].0@);
            assert(dv[i as int] == outcome_view(imports@[i as int].1));
            let repo = import_first(d, m, folder, mv, dv, i as int).1;
            assert(with_repo(m, repo) == manager@);
        }
        r.import(manager, disk, &imports[i].0, downloaded);
        i = i + 1;
    }
    r
}

} // verus!
