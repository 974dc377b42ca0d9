use lab2::tree::Options;
use lab2::walk::{TreeWalk, WalkAction, WalkEvent, WalkPhase};

const DIR: u32 = 0o040755;
const FILE: u32 = 0o100644;

fn names(v: &[&str]) -> Vec<String> {
    v.iter().map(|s| s.to_string()).collect()
}

fn step(w: TreeWalk, e: WalkEvent) -> (TreeWalk, WalkAction) {
    w.step(e)
}

#[test]
fn walk_small_tree() {
    let (w, a) = TreeWalk::new("r", Options::new(false, false));
    assert_eq!(a, WalkAction::OpenPath { node: 0 });
    let (w, a) = step(w, WalkEvent::Opened);
    assert_eq!(a, WalkAction::StatRoot);
    let (w, a) = step(w, WalkEvent::Identity { dev: 1, ino: 100 });
    assert_eq!(a, WalkAction::ReadDirectory);
    let (w, a) = step(w, WalkEvent::Listing(names(&[".", "..", "x", "d"])));
    // "x" is entry 1 and "d" entry 2; the last read comes first.
    assert_eq!(a, WalkAction::OpenPath { node: 0 });
    let (w, a) = step(w, WalkEvent::Opened);
    assert_eq!(a, WalkAction::StatEntry { node: 2, flags: libc::AT_SYMLINK_NOFOLLOW });
    let (w, a) = step(w, WalkEvent::Status { mode: DIR, dev: 1, ino: 101 });
    assert_eq!(a, WalkAction::CloseFd);
    let (w, a) = step(w, WalkEvent::Closed);
    assert_eq!(a, WalkAction::OpenPath { node: 2 });
    let (w, a) = step(w, WalkEvent::Opened);
    assert_eq!(a, WalkAction::ReadDirectory);
    let (w, a) = step(w, WalkEvent::Listing(names(&[".", ".."])));
    assert_eq!(a, WalkAction::OpenPath { node: 0 });
    let (w, a) = step(w, WalkEvent::Opened);
    assert_eq!(a, WalkAction::StatEntry { node: 1, flags: libc::AT_SYMLINK_NOFOLLOW });
    let (w, a) = step(w, WalkEvent::Status { mode: FILE, dev: 1, ino: 102 });
    assert_eq!(a, WalkAction::CloseFd);
    let (w, a) = step(w, WalkEvent::Closed);
    assert_eq!(a, WalkAction::Done);
    assert_eq!(w.phase(), WalkPhase::Done);
    let t = w.tree();
    assert_eq!(t.len(), 3);
    assert_eq!((t.entry(0).dev, t.entry(0).ino), (1, 100));
    assert_eq!((t.entry(2).dev, t.entry(2).ino), (1, 101));
    assert_eq!((t.entry(1).dev, t.entry(1).ino), (1, 102));
    assert_eq!(t.show_default(), names(&["r", "  d", "  x"]));
    for i in 0..t.len() {
        let e = t.entry(i);
        assert_eq!(e.options, Options::new(false, false));
        assert!(!e.cycle);
        if i > 0 {
            assert!(e.name != "." && e.name != "..");
        }
    }
    // The directory walked into has an identity none of its ancestors has.
    assert!(!t.has_loop(2));
}

#[test]
fn walk_marks_loop_and_does_not_enter_it() {
    let (w, _) = TreeWalk::new("r", Options::new(false, false));
    let (w, _) = step(w, WalkEvent::Opened);
    let (w, _) = step(w, WalkEvent::Identity { dev: 1, ino: 100 });
    let (w, _) = step(w, WalkEvent::Listing(names(&["back"])));
    let (w, _) = step(w, WalkEvent::Opened);
    let (w, a) = step(w, WalkEvent::Status { mode: DIR, dev: 1, ino: 100 });
    assert_eq!(a, WalkAction::CloseFd);
    let (w, a) = step(w, WalkEvent::Closed);
    assert_eq!(a, WalkAction::Done);
    assert!(w.tree().entry(1).loop_found);
    assert_eq!(w.tree().show_default(), names(&["r", "  back (loop)"]));
}

#[test]
fn walk_skips_vanished_and_looping_links() {
    let (w, _) = TreeWalk::new("r", Options::new(false, false));
    let (w, _) = step(w, WalkEvent::Opened);
    let (w, _) = step(w, WalkEvent::Identity { dev: 1, ino: 100 });
    let (w, _) = step(w, WalkEvent::Listing(names(&["a", "b", "c"])));
    let (w, a) = step(w, WalkEvent::Opened);
    assert_eq!(a, WalkAction::StatEntry { node: 3, flags: libc::AT_SYMLINK_NOFOLLOW });
    let (w, a) = step(w, WalkEvent::StatusFailed { errno: libc::ENOENT });
    assert_eq!(a, WalkAction::StatEntry { node: 2, flags: libc::AT_SYMLINK_NOFOLLOW });
    let (w, a) = step(w, WalkEvent::StatusFailed { errno: libc::ELOOP });
    assert_eq!(a, WalkAction::StatEntry { node: 1, flags: libc::AT_SYMLINK_NOFOLLOW });
    let (w, a) = step(w, WalkEvent::StatusFailed { errno: libc::EACCES });
    assert_eq!(a, WalkAction::Fail);
    assert_eq!(w.phase(), WalkPhase::Failed);
}

#[test]
fn walk_following_links_reads_link_status() {
    let (w, _) = TreeWalk::new("r", Options::new(true, false));
    let (w, _) = step(w, WalkEvent::Opened);
    let (w, _) = step(w, WalkEvent::Identity { dev: 1, ino: 100 });
    let (w, _) = step(w, WalkEvent::Listing(names(&["link"])));
    let (w, a) = step(w, WalkEvent::Opened);
    assert_eq!(a, WalkAction::StatEntry { node: 1, flags: 0 });
    let (w, a) = step(w, WalkEvent::Status { mode: DIR, dev: 1, ino: 500 });
    assert_eq!(a, WalkAction::StatEntry { node: 1, flags: libc::AT_SYMLINK_NOFOLLOW });
    assert_eq!(w.phase(), WalkPhase::AwaitLinkStatus);
    let (w, a) = step(w, WalkEvent::Status { mode: 0o120777, dev: 1, ino: 501 });
    assert_eq!(a, WalkAction::CloseFd);
    assert_eq!((w.tree().entry(1).dev, w.tree().entry(1).ino), (1, 501));
    let (w, a) = step(w, WalkEvent::Closed);
    assert_eq!(a, WalkAction::OpenPath { node: 1 });
    let plan = w.tree().open_plan(1);
    assert_eq!(plan.len(), 2);
    assert_eq!(plan[0].flags, libc::O_RDONLY | libc::O_DIRECTORY);
    assert_eq!(plan[1].flags, libc::O_RDONLY | libc::O_DIRECTORY);
}

#[test]
fn walk_link_status_failure_fails() {
    let (w, _) = TreeWalk::new("r", Options::new(true, false));
    let (w, _) = step(w, WalkEvent::Opened);
    let (w, _) = step(w, WalkEvent::Identity { dev: 1, ino: 100 });
    let (w, _) = step(w, WalkEvent::Listing(names(&["link"])));
    let (w, _) = step(w, WalkEvent::Opened);
    let (w, _) = step(w, WalkEvent::Status { mode: DIR, dev: 1, ino: 500 });
    let (w, a) = step(w, WalkEvent::StatusFailed { errno: libc::ENOENT });
    assert_eq!(a, WalkAction::Fail);
    assert_eq!(w.phase(), WalkPhase::Failed);
}

#[test]
fn walk_repeats_awaited_action_on_unexpected_event() {
    let (w, a) = TreeWalk::new("r", Options::new(false, false));
    assert_eq!(a, WalkAction::OpenPath { node: 0 });
    let (w, a) = step(w, WalkEvent::Closed);
    assert_eq!(a, WalkAction::OpenPath { node: 0 });
    let (w, a) = step(w, WalkEvent::Listing(names(&["x"])));
    assert_eq!(a, WalkAction::OpenPath { node: 0 });
    assert_eq!(w.tree().len(), 1);
}

#[test]
fn walk_empty_directory() {
    let (w, _) = TreeWalk::new("r", Options::new(false, false));
    let (w, _) = step(w, WalkEvent::Opened);
    let (w, _) = step(w, WalkEvent::Identity { dev: 1, ino: 100 });
    let (w, a) = step(w, WalkEvent::Listing(names(&[".", ".."])));
    assert_eq!(a, WalkAction::Done);
    assert_eq!(w.tree().show_default(), names(&["r"]));
}
