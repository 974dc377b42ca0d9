use lab2::cwd::{CwdAction, CwdEvent, CwdPhase, CwdSearch};

const DIR: u32 = 0o040755;
const FILE: u32 = 0o100644;

fn entry(s: &mut CwdSearch, name: &str) -> CwdAction {
    s.step(CwdEvent::Entry(name.to_string()))
}

#[test]
fn cwd_search_names_home_user() {
    let mut s = CwdSearch::new(1, 2, libc::AT_FDCWD);
    assert_eq!(s.awaited(), CwdAction::StatCurrent);
    assert_eq!(s.step(CwdEvent::Current { dev: 1, ino: 30 }), CwdAction::OpenParent);
    assert_eq!(entry(&mut s, "."), CwdAction::ReadEntry);
    assert_eq!(entry(&mut s, ".."), CwdAction::ReadEntry);
    assert_eq!(entry(&mut s, "bob"), CwdAction::StatEntry);
    assert_eq!(
        s.step(CwdEvent::EntryStatus { mode: DIR, dev: 1, ino: 31 }),
        CwdAction::ReadEntry
    );
    assert_eq!(entry(&mut s, "user"), CwdAction::StatEntry);
    assert_eq!(
        s.step(CwdEvent::EntryStatus { mode: DIR, dev: 1, ino: 30 }),
        CwdAction::Ascend { close_previous: false }
    );
    assert_eq!(s.path(), "user/");
    assert_eq!(s.step(CwdEvent::Ascended { fd: 3 }), CwdAction::StatCurrent);
    assert_eq!(s.step(CwdEvent::Current { dev: 1, ino: 20 }), CwdAction::OpenParent);
    assert_eq!(entry(&mut s, "tmp"), CwdAction::StatEntry);
    assert_eq!(
        s.step(CwdEvent::EntryStatusFailed { errno: libc::ENOENT }),
        CwdAction::ReadEntry
    );
    assert_eq!(entry(&mut s, "home"), CwdAction::StatEntry);
    assert_eq!(
        s.step(CwdEvent::EntryStatus { mode: DIR, dev: 1, ino: 20 }),
        CwdAction::Ascend { close_previous: true }
    );
    assert_eq!(s.step(CwdEvent::Ascended { fd: 4 }), CwdAction::StatCurrent);
    assert_eq!(s.step(CwdEvent::Current { dev: 1, ino: 2 }), CwdAction::Finish);
    assert_eq!(s.phase(), CwdPhase::Finished);
    assert_eq!(s.path(), "home/user/");
}

#[test]
fn cwd_search_does_not_finish_before_a_step_up() {
    let mut s = CwdSearch::new(1, 2, libc::AT_FDCWD);
    assert_eq!(s.step(CwdEvent::Current { dev: 1, ino: 2 }), CwdAction::OpenParent);
    assert_eq!(entry(&mut s, "."), CwdAction::ReadEntry);
    assert_eq!(entry(&mut s, ".."), CwdAction::ReadEntry);
    assert_eq!(s.step(CwdEvent::EndOfEntries), CwdAction::Abandon);
    assert_eq!(s.phase(), CwdPhase::Abandoned);
    assert_eq!(s.path(), "");
}

#[test]
fn cwd_search_ignores_files_and_other_devices() {
    let mut s = CwdSearch::new(1, 2, libc::AT_FDCWD);
    s.step(CwdEvent::Current { dev: 1, ino: 30 });
    assert_eq!(entry(&mut s, "f"), CwdAction::StatEntry);
    assert_eq!(
        s.step(CwdEvent::EntryStatus { mode: FILE, dev: 1, ino: 30 }),
        CwdAction::ReadEntry
    );
    assert_eq!(entry(&mut s, "g"), CwdAction::StatEntry);
    assert_eq!(
        s.step(CwdEvent::EntryStatus { mode: DIR, dev: 9, ino: 30 }),
        CwdAction::ReadEntry
    );
    assert_eq!(s.path(), "");
}

#[test]
fn cwd_search_fails_on_other_stat_errors() {
    let mut s = CwdSearch::new(1, 2, libc::AT_FDCWD);
    s.step(CwdEvent::Current { dev: 1, ino: 30 });
    entry(&mut s, "x");
    assert_eq!(s.step(CwdEvent::EntryStatusFailed { errno: libc::EACCES }), CwdAction::Fail);
    assert_eq!(s.phase(), CwdPhase::Failed);
    assert_eq!(s.awaited(), CwdAction::Fail);
}

#[test]
fn cwd_search_repeats_awaited_action_on_unexpected_event() {
    let mut s = CwdSearch::new(1, 2, libc::AT_FDCWD);
    assert_eq!(s.step(CwdEvent::EndOfEntries), CwdAction::StatCurrent);
    assert_eq!(s.step(CwdEvent::Ascended { fd: 5 }), CwdAction::StatCurrent);
    assert_eq!(s.phase(), CwdPhase::AwaitCurrent);
    s.step(CwdEvent::Current { dev: 1, ino: 30 });
    assert_eq!(s.step(CwdEvent::Current { dev: 1, ino: 2 }), CwdAction::ReadEntry);
}

#[test]
fn cwd_search_closes_previous_only_after_first_step() {
    let mut s = CwdSearch::new(1, 2, 7);
    s.step(CwdEvent::Current { dev: 1, ino: 30 });
    entry(&mut s, "a");
    assert_eq!(
        s.step(CwdEvent::EntryStatus { mode: DIR, dev: 1, ino: 30 }),
        CwdAction::Ascend { close_previous: false }
    );
    assert_eq!(s.step(CwdEvent::Ascended { fd: 7 }), CwdAction::StatCurrent);
    // The new descriptor equals the one started from: the search goes on.
    assert_eq!(s.step(CwdEvent::Current { dev: 1, ino: 2 }), CwdAction::OpenParent);
}

fn drive(start: i32, fds: [i32; 2]) -> (Vec<CwdAction>, String) {
    let mut s = CwdSearch::new(1, 2, start);
    let mut actions = vec![s.awaited()];
    let events = vec![
        CwdEvent::Current { dev: 1, ino: 30 },
        CwdEvent::Entry("user".to_string()),
        CwdEvent::EntryStatus { mode: DIR, dev: 1, ino: 30 },
        CwdEvent::Ascended { fd: fds[0] },
        CwdEvent::Current { dev: 1, ino: 20 },
        CwdEvent::Entry("home".to_string()),
        CwdEvent::EntryStatus { mode: DIR, dev: 1, ino: 20 },
        CwdEvent::Ascended { fd: fds[1] },
        CwdEvent::Current { dev: 1, ino: 2 },
    ];
    for e in events {
        actions.push(s.step(e));
    }
    (actions, s.path())
}

#[test]
fn cwd_search_result_does_not_depend_on_start_descriptor() {
    let (a1, p1) = drive(libc::AT_FDCWD, [3, 4]);
    let (a2, p2) = drive(9, [5, 6]);
    assert_eq!(a1, a2);
    assert_eq!(p1, "home/user/");
    assert_eq!(p1, p2);
    assert_eq!(a1.last(), Some(&CwdAction::Finish));
}
