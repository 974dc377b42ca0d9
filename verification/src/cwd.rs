//! The decisions of a search for the name of the working directory. The
//! search climbs from the working directory to the root: at each level it
//! notes the identity (device and inode) of the directory at hand, reads the
//! entries of its parent until one is a directory with that identity, puts
//! that entry's name in front of the names found so far, and moves up. It
//! ends when the directory at hand is the root and at least one step up was
//! taken. The caller does the system calls that the actions ask for and
//! reports what they returned as events.
use std::collections::VecDeque;
use vstd::prelude::*;

use crate::mode::{is_dir_mode, s_isdir};
use crate::sys::{enoent, enoent_value};
use crate::text::str_eq;

verus! {

/// Where a search stands.
#[derive(Clone, Copy, PartialEq, Eq, Structural, Debug)]
pub enum CwdPhase {
    /// Waiting for the identity of the directory at hand.
    AwaitCurrent,
    /// Reading the entries of the parent directory.
    Scanning,
    /// Waiting for the status of the entry just read.
    AwaitEntryStatus,
    /// Waiting for a descriptor of the parent directory.
    AwaitParent,
    /// The root was reached and the path is known.
    Finished,
    /// No entry of the parent directory is the directory at hand.
    Abandoned,
    /// The status of an entry could not be read.
    Failed,
}

/// What the caller is asked to do next.
#[derive(Clone, Copy, PartialEq, Eq, Structural, Debug)]
pub enum CwdAction {
    /// Read the status of `.` relative to the current descriptor.
    StatCurrent,
    /// Open `..` relative to the current descriptor and start reading its
    /// entries.
    OpenParent,
    /// Read the next entry of the parent directory.
    ReadEntry,
    /// Read the status of the entry just read, relative to the parent
    /// directory, without following a symbolic link.
    StatEntry,
    /// Close the parent directory, open `..` relative to the current
    /// descriptor as the new current descriptor, and close the old one when
    /// `close_previous` holds.
    Ascend { close_previous: bool },
    /// Close the current descriptor: the path is known.
    Finish,
    /// Close the parent directory and give up: the directory at hand was not
    /// found among its parent's entries.
    Abandon,
    /// Give up: the status of an entry could not be read.
    Fail,
}

/// What the caller saw when it did what an action asked for.
pub enum CwdEvent {
    /// The status of `.`: its device and inode.
    Current { dev: libc::dev_t, ino: libc::ino_t },
    /// An entry of the parent directory, by name.
    Entry(String),
    /// The parent directory has no more entries.
    EndOfEntries,
    /// The status of the entry just read.
    EntryStatus { mode: libc::mode_t, dev: libc::dev_t, ino: libc::ino_t },
    /// Reading the status of the entry just read failed with `errno`.
    EntryStatusFailed { errno: libc::c_int },
    /// `..` was opened as descriptor `fd`.
    Ascended { fd: libc::c_int },
}

/// A search for the name of the working directory.
pub struct CwdSearch {
    root_dev: libc::dev_t,
    root_ino: libc::ino_t,
    start_fd: libc::c_int,
    cur_fd: libc::c_int,
    dev: libc::dev_t,
    ino: libc::ino_t,
    names: VecDeque<String>,
    pending: Option<String>,
    phase: CwdPhase,
}

/// The content of a search.
pub struct CwdState {
    /// Identity of the root directory.
    pub root_dev: libc::dev_t,
    pub root_ino: libc::ino_t,
    /// The descriptor that the search started from.
    pub start_fd: libc::c_int,
    /// The descriptor of the directory at hand.
    pub cur_fd: libc::c_int,
    /// Identity of the directory at hand, once it was read.
    pub dev: libc::dev_t,
    pub ino: libc::ino_t,
    /// The names found so far, the one nearest the root first.
    pub names: Seq<String>,
    /// The entry whose status is awaited, once one was read.
    pub pending: Option<String>,
    pub phase: CwdPhase,
}

impl View for CwdSearch {
    type V = CwdState;

    closed spec fn view(&self) -> CwdState {
        CwdState {
            root_dev: self.root_dev,
            root_ino: self.root_ino,
            start_fd: self.start_fd,
            cur_fd: self.cur_fd,
            dev: self.dev,
            ino: self.ino,
            names: self.names@,
            pending: self.pending,
            phase: self.phase,
        }
    }
}

/// Whether `name` is one of the two entries that every directory holds,
/// `.` and `..`.
pub open spec fn is_dot_entry(name: Seq<char>) -> bool {
    name == "."@ || name == ".."@
}

/// The path that a list of names gives: each name followed by `/`.
pub open spec fn joined(names: Seq<String>) -> Seq<char>
    decreases names.len(),
{
    if names.len() == 0 {
        Seq::empty()
    } else {
        joined(names.drop_last()) + names.last()@ + seq!['/']
    }
}

/// The state of a search that starts from descriptor `start_fd`, below the
/// root with identity `root_dev`, `root_ino`.
pub open spec fn initial_state(
    root_dev: libc::dev_t,
    root_ino: libc::ino_t,
    start_fd: libc::c_int,
) -> CwdState {
    CwdState {
        root_dev,
        root_ino,
        start_fd,
        cur_fd: start_fd,
        dev: 0,
        ino: 0,
        names: Seq::empty(),
        pending: None,
        phase: CwdPhase::AwaitCurrent,
    }
}

/// The action that a state waits on.
pub open spec fn awaited_action(s: CwdState) -> CwdAction {
    match s.phase {
        CwdPhase::AwaitCurrent => CwdAction::StatCurrent,
        CwdPhase::Scanning => CwdAction::ReadEntry,
        CwdPhase::AwaitEntryStatus => CwdAction::StatEntry,
        CwdPhase::AwaitParent => CwdAction::Ascend { close_previous: s.cur_fd != s.start_fd },
        CwdPhase::Finished => CwdAction::Finish,
        CwdPhase::Abandoned => CwdAction::Abandon,
        CwdPhase::Failed => CwdAction::Fail,
    }
}

/// The next state of a search and the action it asks for, after event `e`
/// in state `s`. An event that the state does not wait on changes nothing
/// and the awaited action is asked for again.
pub open spec fn next(s: CwdState, e: CwdEvent) -> (CwdState, CwdAction) {
    match e {
        CwdEvent::Current { dev, ino } => if s.phase == CwdPhase::AwaitCurrent {
            if dev == s.root_dev && ino == s.root_ino && s.cur_fd != s.start_fd {
                (CwdState { dev, ino, phase: CwdPhase::Finished, ..s }, CwdAction::Finish)
            } else {
                (CwdState { dev, ino, phase: CwdPhase::Scanning, ..s }, CwdAction::OpenParent)
            }
        } else {
            (s, awaited_action(s))
        },
        CwdEvent::Entry(name) => if s.phase == CwdPhase::Scanning {
            if is_dot_entry(name@) {
                (s, CwdAction::ReadEntry)
            } else {
                (
                    CwdState { pending: Some(name), phase: CwdPhase::AwaitEntryStatus, ..s },
                    CwdAction::StatEntry,
                )
            }
        } else {
            (s, awaited_action(s))
        },
        CwdEvent::EndOfEntries => if s.phase == CwdPhase::Scanning {
            (CwdState { phase: CwdPhase::Abandoned, ..s }, CwdAction::Abandon)
        } else {
            (s, awaited_action(s))
        },
        CwdEvent::EntryStatus { mode, dev, ino } => if s.phase == CwdPhase::AwaitEntryStatus {
            if is_dir_mode(mode) && ino == s.ino && dev == s.dev {
                (
                    CwdState {
                        names: match s.pending {
                            Some(n) => seq![n] + s.names,
                            None => s.names,
                        },
                        phase: CwdPhase::AwaitParent,
                        ..s
                    },
                    CwdAction::Ascend { close_previous: s.cur_fd != s.start_fd },
                )
            } else {
                (CwdState { phase: CwdPhase::Scanning, ..s }, CwdAction::ReadEntry)
            }
        } else {
            (s, awaited_action(s))
        },
        CwdEvent::EntryStatusFailed { errno } => if s.phase == CwdPhase::AwaitEntryStatus {
            if errno == enoent_value() {
                (CwdState { phase: CwdPhase::Scanning, ..s }, CwdAction::ReadEntry)
            } else {
                (CwdState { phase: CwdPhase::Failed, ..s }, CwdAction::Fail)
            }
        } else {
            (s, awaited_action(s))
        },
        CwdEvent::Ascended { fd } => if s.phase == CwdPhase::AwaitParent {
            (CwdState { cur_fd: fd, phase: CwdPhase::AwaitCurrent, ..s }, CwdAction::StatCurrent)
        } else {
            (s, awaited_action(s))
        },
    }
}

/// What holds of every state that a search passes through: no name found
/// is `.` or `..`, an awaited entry status belongs to an entry read, and a
/// finished search stands at the root after at least one step up.
pub open spec fn well_formed(s: CwdState) -> bool {
    &&& forall|k: int| 0 <= k < s.names.len() ==> !is_dot_entry(#[trigger] s.names[k]@)
    &&& (s.pending matches Some(n) ==> !is_dot_entry(n@))
    &&& (s.phase == CwdPhase::AwaitEntryStatus ==> s.pending is Some)
    &&& (s.phase == CwdPhase::Finished ==> s.dev == s.root_dev && s.ino == s.root_ino
        && s.cur_fd != s.start_fd)
}

/// A search starts well formed.
pub proof fn lemma_initial_well_formed(
    root_dev: libc::dev_t,
    root_ino: libc::ino_t,
    start_fd: libc::c_int,
)
    ensures
        well_formed(initial_state(root_dev, root_ino, start_fd)),
{
}

/// Every step keeps a search well formed.
pub proof fn lemma_next_well_formed(s: CwdState, e: CwdEvent)
    requires
        well_formed(s),
    ensures
        well_formed(next(s, e).0),
{
    let t = next(s, e).0;
    if t.names != s.names {
        let n = s.pending->Some_0;
        assert(t.names == seq![n] + s.names);
        assert forall|k: int| 0 <= k < t.names.len() implies !is_dot_entry(
            #[trigger] t.names[k]@,
        ) by {
            if k > 0 {
                assert(t.names[k] == s.names[k - 1]);
            }
        }
    }
}

/// A search asks to finish only at the root, and never before it has taken
/// a step up from where it started.
pub proof fn lemma_finish_only_at_root(s: CwdState, e: CwdEvent)
    requires
        well_formed(s),
        next(s, e).1 == CwdAction::Finish,
    ensures
        next(s, e).0.dev == s.root_dev,
        next(s, e).0.ino == s.root_ino,
        next(s, e).0.cur_fd != s.start_fd,
{
}

/// A step either keeps the names found, or, when it asks to step up, puts
/// the entry just found in front of them; the path then gains that name
/// and a `/` in front.
pub proof fn lemma_next_names(s: CwdState, e: CwdEvent)
    requires
        well_formed(s),
    ensures
        next(s, e).0.names == s.names || (next(s, e).1 is Ascend && s.pending is Some
            && next(s, e).0.names == seq![s.pending->Some_0] + s.names && joined(
            next(s, e).0.names,
        ) == s.pending->Some_0@ + seq!['/'] + joined(s.names)),
{
    if next(s, e).0.names != s.names {
        lemma_joined_prepend(s.pending->Some_0, s.names);
    }
}

/// The path of a name put in front of others is that name, a `/`, and the
/// path of the others.
pub proof fn lemma_joined_prepend(n: String, names: Seq<String>)
    ensures
        joined(seq![n] + names) == n@ + seq!['/'] + joined(names),
    decreases names.len(),
{
    let all = seq![n] + names;
    if names.len() == 0 {
        assert(all.drop_last() == Seq::<String>::empty());
        assert(joined(all) == joined(Seq::<String>::empty()) + n@ + seq!['/']);
    } else {
        assert(all.drop_last() == seq![n] + names.drop_last());
        lemma_joined_prepend(n, names.drop_last());
        assert(all.last() == names.last());
    }
}

/// Whether two searches agree on everything but their descriptors, and
/// both have or both have not yet stepped up from where they started.
pub open spec fn same_but_descriptors(s1: CwdState, s2: CwdState) -> bool {
    &&& s1.root_dev == s2.root_dev
    &&& s1.root_ino == s2.root_ino
    &&& s1.dev == s2.dev
    &&& s1.ino == s2.ino
    &&& s1.names == s2.names
    &&& s1.pending == s2.pending
    &&& s1.phase == s2.phase
    &&& (s1.cur_fd != s1.start_fd) == (s2.cur_fd != s2.start_fd)
}

/// Whether two events report the same, but for the descriptor that a step
/// up opened; such a descriptor differs from the one its search started
/// from, which is still open when it is opened.
pub open spec fn matching_events(e1: CwdEvent, e2: CwdEvent, start1: libc::c_int, start2: libc::c_int) -> bool {
    ||| e1 == e2 && !(e1 is Ascended)
    ||| (e1 is Ascended && e2 is Ascended && e1->fd != start1 && e2->fd != start2)
}

/// The state a search reaches through the events `es`, and the actions it
/// asks for on the way.
pub open spec fn run(s: CwdState, es: Seq<CwdEvent>) -> (CwdState, Seq<CwdAction>)
    decreases es.len(),
{
    if es.len() == 0 {
        (s, Seq::empty())
    } else {
        let first = next(s, es[0]);
        let rest = run(first.0, es.drop_first());
        (rest.0, seq![first.1] + rest.1)
    }
}

/// Two searches that differ only in their descriptors take the same step on
/// matching events: the same action, and again states that differ only in
/// their descriptors; the descriptor started from never changes.
pub proof fn lemma_next_ignores_descriptors(s1: CwdState, s2: CwdState, e1: CwdEvent, e2: CwdEvent)
    requires
        same_but_descriptors(s1, s2),
        matching_events(e1, e2, s1.start_fd, s2.start_fd),
    ensures
        same_but_descriptors(next(s1, e1).0, next(s2, e2).0),
        next(s1, e1).1 == next(s2, e2).1,
        next(s1, e1).0.start_fd == s1.start_fd,
        next(s2, e2).0.start_fd == s2.start_fd,
{
}

/// The name found does not depend on the descriptor the search starts
/// from: two searches below the same root, started from any two
/// descriptors and fed matching events, ask for the same actions and end
/// with the same names, so with the same path.
pub proof fn lemma_run_ignores_descriptors(
    s1: CwdState,
    s2: CwdState,
    es1: Seq<CwdEvent>,
    es2: Seq<CwdEvent>,
)
    requires
        same_but_descriptors(s1, s2),
        es1.len() == es2.len(),
        forall|k: int|
            0 <= k < es1.len() ==> matching_events(
                #[trigger] es1[k],
                es2[k],
                s1.start_fd,
                s2.start_fd,
            ),
    ensures
        same_but_descriptors(run(s1, es1).0, run(s2, es2).0),
        run(s1, es1).1 == run(s2, es2).1,
        joined(run(s1, es1).0.names) == joined(run(s2, es2).0.names),
    decreases es1.len(),
{
    if es1.len() > 0 {
        lemma_next_ignores_descriptors(s1, s2, es1[0], es2[0]);
        let n1 = next(s1, es1[0]).0;
        let n2 = next(s2, es2[0]).0;
        assert forall|k: int| 0 <= k < es1.drop_first().len() implies matching_events(
            #[trigger] es1.drop_first()[k],
            es2.drop_first()[k],
            n1.start_fd,
            n2.start_fd,
        ) by {
            assert(matching_events(es1[k + 1], es2[k + 1], s1.start_fd, s2.start_fd));
        }
        lemma_run_ignores_descriptors(n1, n2, es1.drop_first(), es2.drop_first());
    }
}

/// Searches below the same root start alike whatever descriptor they start
/// from.
pub proof fn lemma_initial_ignores_descriptors(
    root_dev: libc::dev_t,
    root_ino: libc::ino_t,
    start1: libc::c_int,
    start2: libc::c_int,
)
    ensures
        same_but_descriptors(
            initial_state(root_dev, root_ino, start1),
            initial_state(root_dev, root_ino, start2),
        ),
{
}

/// A step adds a name only when the entry just read turned out to be a
/// directory (its file-type bits say so) with the device and inode of the
/// directory at hand; the name is then that entry's, and the search asks to
/// step up.
pub proof fn lemma_name_added_only_for_match(s: CwdState, e: CwdEvent)
    requires
        next(s, e).0.names != s.names,
    ensures
        s.phase == CwdPhase::AwaitEntryStatus,
        e is EntryStatus,
        e->mode & 0o170000 == 0o040000,
        e->EntryStatus_dev == s.dev,
        e->EntryStatus_ino == s.ino,
        s.pending is Some,
        next(s, e).0.names == seq![s.pending->Some_0] + s.names,
        next(s, e).1 is Ascend,
{
}

impl CwdSearch {
    /// Starts a search from descriptor `start_fd` (the working directory is
    /// `AT_FDCWD`), given the identity of the root directory.
    pub fn new(root_dev: libc::dev_t, root_ino: libc::ino_t, start_fd: libc::c_int) -> (r: Self)
        ensures
            r@ == initial_state(root_dev, root_ino, start_fd),
    {
        CwdSearch {
            root_dev,
            root_ino,
            start_fd,
            cur_fd: start_fd,
            dev: 0,
            ino: 0,
            names: VecDeque::new(),
            pending: None,
            phase: CwdPhase::AwaitCurrent,
        }
    }

    /// The action that the search waits on.
    pub fn awaited(&self) -> (r: CwdAction)
        ensures
            r == awaited_action(self@),
    {
        match self.phase {
            CwdPhase::AwaitCurrent => CwdAction::StatCurrent,
            CwdPhase::Scanning => CwdAction::ReadEntry,
            CwdPhase::AwaitEntryStatus => CwdAction::StatEntry,
            CwdPhase::AwaitParent => CwdAction::Ascend { close_previous: self.cur_fd != self.start_fd },
            CwdPhase::Finished => CwdAction::Finish,
            CwdPhase::Abandoned => CwdAction::Abandon,
            CwdPhase::Failed => CwdAction::Fail,
        }
    }

    /// The phase the search is in.
    pub fn phase(&self) -> (r: CwdPhase)
        ensures
            r == self@.phase,
    {
        self.phase
    }

    /// Takes in what the caller saw and returns what it is to do next.
    pub fn step(&mut self, e: CwdEvent) -> (a: CwdAction)
        ensures
            (final(self)@, a) == next(old(self)@, e),
    {
        match e {
            CwdEvent::Current { dev, ino } => {
                if self.phase == CwdPhase::AwaitCurrent {
                    self.dev = dev;
                    self.ino = ino;
                    if dev == self.root_dev && ino == self.root_ino && self.cur_fd != self.start_fd {
                        self.phase = CwdPhase::Finished;
                        CwdAction::Finish
                    } else {
                        self.phase = CwdPhase::Scanning;
                        CwdAction::OpenParent
                    }
                } else {
                    self.awaited()
                }
            },
            CwdEvent::Entry(name) => {
                if self.phase == CwdPhase::Scanning {
                    if str_eq(name.as_str(), ".") || str_eq(name.as_str(), "..") {
                        CwdAction::ReadEntry
                    } else {
                        self.pending = Some(name);
                        self.phase = CwdPhase::AwaitEntryStatus;
                        CwdAction::StatEntry
                    }
                } else {
                    self.awaited()
                }
            },
            CwdEvent::EndOfEntries => {
                if self.phase == CwdPhase::Scanning {
                    self.phase = CwdPhase::Abandoned;
                    CwdAction::Abandon
                } else {
                    self.awaited()
                }
            },
            CwdEvent::EntryStatus { mode, dev, ino } => {
                if self.phase == CwdPhase::AwaitEntryStatus {
                    if s_isdir(mode) && ino == self.ino && dev == self.dev {
                        if let Some(name) = &self.pending {
                            self.names.push_front(name.clone());
                        }
                        self.phase = CwdPhase::AwaitParent;
                        CwdAction::Ascend { close_previous: self.cur_fd != self.start_fd }
                    } else {
                        self.phase = CwdPhase::Scanning;
                        CwdAction::ReadEntry
                    }
                } else {
                    self.awaited()
                }
            },
            CwdEvent::EntryStatusFailed { errno } => {
                if self.phase == CwdPhase::AwaitEntryStatus {
                    if errno == enoent() {
                        self.phase = CwdPhase::Scanning;
                        CwdAction::ReadEntry
                    } else {
                        self.phase = CwdPhase::Failed;
                        CwdAction::Fail
                    }
                } else {
                    self.awaited()
                }
            },
            CwdEvent::Ascended { fd } => {
                if self.phase == CwdPhase::AwaitParent {
                    self.cur_fd = fd;
                    self.phase = CwdPhase::AwaitCurrent;
                    CwdAction::StatCurrent
                } else {
                    self.awaited()
                }
            },
        }
    }

    /// The path made of the names found so far: each name, the one nearest
    /// the root first, followed by `/`.
    pub fn path(&self) -> (r: String)
        ensures
            r@ == joined(self@.names),
    {
        let mut out = String::new();
        let mut i: usize = 0;
        while i < self.names.len()
            invariant
                i <= self.names@.len(),
                out@ == joined(self.names@.take(i as int)),
            decreases self.names@.len() - i,
        {
            out.append(self.names[i].as_str());
            out.append("/");
            proof {
                reveal_strlit("/");
                assert(self.names@.take(i + 1).drop_last() == self.names@.take(i as int));
            }
            i = i + 1;
        }
        assert(self.names@.take(self.names@.len() as int) == self.names@);
        out
    }
}

} // verus!
