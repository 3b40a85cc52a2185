//! Trees, the notes of their changes, and carrying the notes out.
use deadlock_mods::disk::{Body, Disk, Node, Op};
use deadlock_mods::path::TreePath;
use deadlock_mods::runner::{Runner, Task};
use deadlock_mods::vpk_manifest::ProfileVpkManifest;

fn path(text: &str) -> TreePath {
    TreePath::parse(text)
}

fn folder() -> Node {
    Node { linked: false, body: Body::Folder }
}

fn blob(id: u64) -> Node {
    Node { linked: false, body: Body::Blob { id, size: 1 } }
}

fn disk() -> Disk {
    Disk::read(vec![
        (path("/a"), folder()),
        (path("/a/x"), blob(1)),
        (path("/a/y"), blob(2)),
        (path("/b"), folder()),
    ])
    .unwrap()
}

/// Carries out notes on a stand-in for the file system that refuses the changes
/// with the numbers `refuse`, and returns what came of it.
fn carry_out(real: &mut Disk, notes: Vec<Op>, refuse: &[usize]) -> Task {
    let mut runner = Runner::new(real.duplicate(), notes);
    let mut tried = 0;
    loop {
        match runner.next_task() {
            Task::Perform(op) => {
                let ok = !refuse.contains(&tried) && real.can(&op);
                if ok {
                    real.perform(op);
                }
                tried += 1;
                runner = runner.report(ok);
            }
            task => return task,
        }
    }
}

fn shape(disk: &Disk) -> Vec<(String, Body)> {
    disk.below(&path(""))
        .iter()
        .map(|p| (p.to_text(), disk.node(p).unwrap().body))
        .collect()
}

fn moves() -> Vec<Op> {
    let mut work = disk();
    work.create_dir_all(&path("/b/stage")).unwrap();
    work.rename(&path("/a/x"), &path("/b/stage/x")).unwrap();
    work.copy_file(&path("/a/y"), &path("/b/stage/y")).unwrap();
    work.write_manifest(&path("/b/m"), &ProfileVpkManifest::default()).unwrap();
    work.rename(&path("/a"), &path("/c")).unwrap();
    work.into_notes()
}

#[test]
fn a_tree_needs_a_directory_for_everything() {
    assert!(Disk::read(vec![(path("/a/x"), blob(1))]).is_none());
    assert!(Disk::read(vec![(path("/a"), blob(0)), (path("/a/x"), blob(1))]).is_none());
    assert!(Disk::read(vec![(path("/a"), folder()), (path("/a/x"), blob(1))]).is_some());
}

#[test]
fn changes_are_refused_where_they_cannot_be_made() {
    let mut d = disk();
    assert_eq!(
        d.rename(&path("/a/z"), &path("/b/z")).unwrap_err().message(),
        "Cannot rename /a/z"
    );
    assert_eq!(
        d.create_dir_all(&path("/a/x/deep")).unwrap_err().message(),
        "Cannot create directory /a/x/deep"
    );
    assert_eq!(
        d.copy_file(&path("/a"), &path("/b/a")).unwrap_err().message(),
        "Cannot copy /a"
    );
    assert_eq!(d.remove_file(&path("/b")).unwrap_err().message(), "Cannot remove /b");
    assert_eq!(d.remove_dir_all(&path("/a/x")).unwrap_err().message(), "Cannot remove /a/x");
    assert!(d.rename(&path("/a"), &path("/a/inside")).is_err());
    assert_eq!(shape(&d), shape(&disk()));
}

#[test]
fn notes_lead_from_the_old_tree_to_the_new() {
    let mut real = disk();
    assert!(matches!(carry_out(&mut real, moves(), &[]), Task::Done { missed: 0 }));
    assert!(real.is_file(&path("/b/stage/x")));
    assert!(real.is_file(&path("/c/y")));
    assert!(!real.has(&path("/a")));
}

#[test]
fn a_refused_change_takes_the_others_back() {
    for refuse in 0..5 {
        let mut real = disk();
        let end = carry_out(&mut real, moves(), &[refuse]);
        assert!(
            matches!(end, Task::RolledBack { whole: true, committed: false }),
            "{refuse}: {end:?}"
        );
        assert_eq!(shape(&real), shape(&disk()), "{refuse}");
    }
}

#[test]
fn what_was_committed_stays() {
    let mut work = disk();
    work.rename(&path("/a/x"), &path("/b/x")).unwrap();
    work.commit();
    work.rename(&path("/a/y"), &path("/b/y")).unwrap();
    work.rename(&path("/b/x"), &path("/b/z")).unwrap();
    let mut real = disk();
    let end = carry_out(&mut real, work.into_notes(), &[3]);
    assert!(matches!(end, Task::RolledBack { whole: true, committed: true }));
    assert!(real.is_file(&path("/b/x")));
    assert!(real.is_file(&path("/a/y")));
}

#[test]
fn a_deleted_file_comes_back() {
    let mut work = disk();
    work.remove_file(&path("/a/x")).unwrap();
    work.rename(&path("/a/y"), &path("/b/y")).unwrap();
    let notes = work.into_notes();
    assert_eq!(notes[0], Op::Delete(path("/a/x")));
    let mut real = disk();
    let end = carry_out(&mut real, notes, &[1]);
    assert!(matches!(end, Task::RolledBack { whole: true, committed: false }));
    assert_eq!(shape(&real), shape(&disk()));
}

#[test]
fn a_file_that_is_written_over_comes_back() {
    let mut work = disk();
    work.rename(&path("/a/x"), &path("/a/y")).unwrap();
    work.create_dir_all(&path("/c")).unwrap();
    let mut real = disk();
    let end = carry_out(&mut real, work.into_notes(), &[2]);
    assert!(matches!(end, Task::RolledBack { whole: true, committed: false }));
    assert_eq!(shape(&real), shape(&disk()));
}

#[test]
fn a_removed_directory_stays_removed() {
    let mut work = disk();
    work.remove_dir_all(&path("/a")).unwrap();
    work.create_dir_all(&path("/c")).unwrap();
    let notes = work.into_notes();
    assert_eq!(notes[0], Op::RemoveTree { path: path("/a"), lenient: false });
    assert_eq!(notes[1], Op::Settle);
    let mut real = disk();
    let end = carry_out(&mut real, notes, &[2]);
    assert!(matches!(end, Task::RolledBack { whole: true, committed: false }));
    assert!(!real.has(&path("/a")));
    assert!(real.has(&path("/b")));
}

#[test]
fn what_cannot_be_taken_back_is_told() {
    let mut work = disk();
    work.rename(&path("/a/x"), &path("/b/x")).unwrap();
    work.rename(&path("/a/y"), &path("/b/y")).unwrap();
    let mut real = disk();
    let end = carry_out(&mut real, work.into_notes(), &[1, 2]);
    assert!(matches!(end, Task::RolledBack { whole: false, committed: false }));
    assert!(real.is_file(&path("/b/x")));
    assert!(real.is_file(&path("/a/y")));
}

#[test]
fn leftovers_that_cannot_be_cleared_away_do_no_harm() {
    let mut work = disk();
    work.clear_away(&path("/b"));
    work.rename(&path("/a/x"), &path("/a/z")).unwrap();
    let mut real = disk();
    assert!(matches!(carry_out(&mut real, work.into_notes(), &[0]), Task::Done { missed: 1 }));
    assert!(real.has(&path("/b")));
    assert!(real.has(&path("/a/z")));
}

#[test]
fn paths_are_read_written_and_joined() {
    assert_eq!(path("/a//b/./c/").to_text(), "/a/b/c");
    assert_eq!(path("/a").join("b/c").to_text(), "/a/b/c");
    assert_eq!(path("/a").join("/b").to_text(), "/b");
    assert_eq!(path("/a/b").file_name(), Some("b".to_string()));
    assert_eq!(path("/a/..").file_name(), None);
    assert_eq!(path("/a/b").parent().unwrap().to_text(), "/a");
    assert!(path("/").parent().is_none());
    assert!(path("/a/b").starts_with(&path("/a")));
    assert!(!path("/ab").starts_with(&path("/a")));
    assert!(path("/a/b").is_before(&path("/a-b")));
}
