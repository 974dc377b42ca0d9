//! The decisions of a walk that builds the tree below a directory. The walk
//! goes depth first. For each directory it first checks that the directory
//! is none of its ancestors, opens it through the chain of its ancestors'
//! names, reads its identity when it is the first one, and reads its
//! entries; then for each entry, the last read first, it reads the entry's
//! status (and, when links are followed and the entry is a directory, the
//! status of the link itself), records the entry's identity, and walks it
//! when it is a directory. The caller does the system calls that the
//! actions ask for and reports what they returned as events.
use vstd::prelude::*;

use crate::mode::{is_dir_mode, s_isdir};
use crate::sys::{at_symlink_nofollow, at_symlink_nofollow_value, eloop, eloop_value, enoent, enoent_value};
use crate::text::str_eq;
use crate::tree::{fresh_entry, is_tree, path_to, repeats_ancestor, DirTree, EntryView, Options};

verus! {

/// Where a walk stands in one directory.
#[derive(Clone, Copy, PartialEq, Eq, Structural, Debug)]
pub struct Frame {
    /// The entry of the directory.
    pub node: usize,
    /// How many of its children were dealt with.
    pub next: usize,
    /// Whether a descriptor of the directory is open.
    pub fd_open: bool,
    /// Whether its entries were read.
    pub listed: bool,
}

/// What a walk waits for.
#[derive(Clone, Copy, PartialEq, Eq, Structural, Debug)]
pub enum WalkPhase {
    /// The directory at hand to be opened.
    Opening,
    /// The identity of the first directory.
    AwaitIdentity,
    /// The entries of the directory at hand.
    AwaitListing,
    /// The status of the child at hand.
    AwaitStatus,
    /// The status of the child at hand, a symbolic link not followed.
    AwaitLinkStatus,
    /// The directory's descriptor to be closed before its child is walked.
    ClosingForChild,
    /// The directory's descriptor to be closed once all children are done.
    ClosingAtEnd,
    /// The walk is over.
    Done,
    /// The walk gave up.
    Failed,
}

/// What the caller is asked to do next.
#[derive(Clone, Copy, PartialEq, Eq, Structural, Debug)]
pub enum WalkAction {
    /// Open the directory of entry `node` along the chain that
    /// `DirTree::open_plan` gives, keeping the last descriptor.
    OpenPath { node: usize },
    /// Read the status of the open descriptor.
    StatRoot,
    /// Read all entries of the open descriptor's directory, then close it.
    ReadDirectory,
    /// Read the status of entry `node` by its name, relative to the open
    /// descriptor, with `flags`.
    StatEntry { node: usize, flags: libc::c_int },
    /// Close the open descriptor.
    CloseFd,
    /// The walk is over.
    Done,
    /// Give up.
    Fail,
}

/// What the caller saw when it did what an action asked for.
pub enum WalkEvent {
    /// The directory was opened.
    Opened,
    /// The status of the open descriptor: device and inode.
    Identity { dev: libc::dev_t, ino: libc::ino_t },
    /// The names of the directory's entries, in the order read.
    Listing(Vec<String>),
    /// The status of the entry asked about.
    Status { mode: libc::mode_t, dev: libc::dev_t, ino: libc::ino_t },
    /// Reading the status of the entry failed with `errno`.
    StatusFailed { errno: libc::c_int },
    /// The descriptor was closed.
    Closed,
}

/// The content of a walk: the tree so far, the directories being walked
/// (the first one at the bottom) and what it waits for.
pub struct WalkState {
    pub tree: Seq<EntryView>,
    pub stack: Seq<Frame>,
    pub phase: WalkPhase,
}

/// The flags to read the status of a child with: through a symbolic link
/// only when links are followed.
pub open spec fn child_flags(options: Options) -> libc::c_int {
    if options.follow_slink {
        0
    } else {
        at_symlink_nofollow_value()
    }
}

/// Whether `name` is one of the two entries that every directory holds.
pub open spec fn is_dot_entry(name: Seq<char>) -> bool {
    name == "."@ || name == ".."@
}

/// The tree with an entry named `name` added below entry `p`, in front of
/// its other children.
pub open spec fn with_child(t: Seq<EntryView>, p: int, name: Seq<char>) -> Seq<EntryView> {
    t.push(fresh_entry(name, t[p].options, Some(p as usize))).update(
        p,
        EntryView { entries: seq![t.len() as usize] + t[p].entries, ..t[p] },
    )
}

/// The tree with the entries read from directory `p` added below it, in
/// the order read, leaving out `.` and `..`.
pub open spec fn with_listing(t: Seq<EntryView>, p: int, names: Seq<String>) -> Seq<EntryView>
    decreases names.len(),
{
    if names.len() == 0 {
        t
    } else {
        let before = with_listing(t, p, names.drop_last());
        if is_dot_entry(names.last()@) {
            before
        } else {
            with_child(before, p, names.last()@)
        }
    }
}

/// The stack with its top frame replaced by `f`.
pub open spec fn with_top(stack: Seq<Frame>, f: Frame) -> Seq<Frame> {
    stack.update(stack.len() - 1, f)
}

/// What the walk does when the directory on top of the stack is to go on:
/// deal with its next child, opening it first when it is closed; close it
/// when all its children are done; or leave it for the directory below.
pub open spec fn advance(t: Seq<EntryView>, stack: Seq<Frame>) -> (Seq<Frame>, WalkPhase, WalkAction)
    decreases stack.len(),
{
    if stack.len() == 0 {
        (stack, WalkPhase::Done, WalkAction::Done)
    } else {
        let f = stack.last();
        let e = t[f.node as int];
        if f.next < e.entries.len() {
            if f.fd_open {
                (
                    stack,
                    WalkPhase::AwaitStatus,
                    WalkAction::StatEntry { node: e.entries[f.next as int], flags: child_flags(e.options) },
                )
            } else {
                (stack, WalkPhase::Opening, WalkAction::OpenPath { node: f.node })
            }
        } else if f.fd_open {
            (stack, WalkPhase::ClosingAtEnd, WalkAction::CloseFd)
        } else {
            advance(t, stack.drop_last())
        }
    }
}

/// What the walk does when it comes to directory `c`: when `c` is one of
/// its ancestors it is marked so and left; else it is walked, starting by
/// opening it.
pub open spec fn enter(t: Seq<EntryView>, stack: Seq<Frame>, c: usize) -> WalkState {
    if repeats_ancestor(t, c as int) {
        let t2 = t.update(c as int, EntryView { loop_found: true, ..t[c as int] });
        let a = advance(t2, stack);
        WalkState { tree: t2, stack: a.0, phase: a.1 }
    } else {
        WalkState {
            tree: t,
            stack: stack.push(Frame { node: c, next: 0, fd_open: false, listed: false }),
            phase: WalkPhase::Opening,
        }
    }
}

/// The action that a walk state waits on.
pub open spec fn awaited_action(s: WalkState) -> WalkAction {
    let f = s.stack.last();
    let e = s.tree[f.node as int];
    match s.phase {
        WalkPhase::Opening => WalkAction::OpenPath { node: f.node },
        WalkPhase::AwaitIdentity => WalkAction::StatRoot,
        WalkPhase::AwaitListing => WalkAction::ReadDirectory,
        WalkPhase::AwaitStatus => WalkAction::StatEntry {
            node: e.entries[f.next as int],
            flags: child_flags(e.options),
        },
        WalkPhase::AwaitLinkStatus => WalkAction::StatEntry {
            node: e.entries[f.next as int],
            flags: at_symlink_nofollow_value(),
        },
        WalkPhase::ClosingForChild => WalkAction::CloseFd,
        WalkPhase::ClosingAtEnd => WalkAction::CloseFd,
        WalkPhase::Done => WalkAction::Done,
        WalkPhase::Failed => WalkAction::Fail,
    }
}

/// A state together with the action it waits on.
pub open spec fn waiting(s: WalkState) -> (WalkState, WalkAction) {
    (s, awaited_action(s))
}

/// The next state of a walk and the action it asks for, after event `e`
/// in state `s`. An event that the state does not wait on changes nothing
/// and the awaited action is asked for again.
pub open spec fn next(s: WalkState, e: WalkEvent) -> (WalkState, WalkAction) {
    let t = s.tree;
    let f = s.stack.last();
    let node = t[f.node as int];
    match e {
        WalkEvent::Opened => if s.phase == WalkPhase::Opening {
            let f2 = Frame { fd_open: true, ..f };
            let stack = with_top(s.stack, f2);
            if !f.listed {
                if node.parent is None {
                    waiting(WalkState { tree: t, stack, phase: WalkPhase::AwaitIdentity })
                } else {
                    waiting(WalkState { tree: t, stack, phase: WalkPhase::AwaitListing })
                }
            } else {
                waiting(WalkState { tree: t, stack, phase: WalkPhase::AwaitStatus })
            }
        } else {
            waiting(s)
        },
        WalkEvent::Identity { dev, ino } => if s.phase == WalkPhase::AwaitIdentity {
            waiting(
                WalkState {
                    tree: t.update(f.node as int, EntryView { dev, ino, ..node }),
                    stack: s.stack,
                    phase: WalkPhase::AwaitListing,
                },
            )
        } else {
            waiting(s)
        },
        WalkEvent::Listing(names) => if s.phase == WalkPhase::AwaitListing {
            if names@.len() >= usize::MAX - t.len() {
                waiting(WalkState { phase: WalkPhase::Failed, ..s })
            } else {
                let t2 = with_listing(t, f.node as int, names@);
                let a = advance(t2, with_top(s.stack, Frame { fd_open: false, listed: true, ..f }));
                (WalkState { tree: t2, stack: a.0, phase: a.1 }, a.2)
            }
        } else {
            waiting(s)
        },
        WalkEvent::Status { mode, dev, ino } => {
            let c = node.entries[f.next as int];
            let t2 = t.update(c as int, EntryView { dev, ino, ..t[c as int] });
            let stack2 = with_top(s.stack, Frame { next: (f.next + 1) as usize, ..f });
            if s.phase == WalkPhase::AwaitStatus {
                if is_dir_mode(mode) && node.options.follow_slink {
                    waiting(WalkState { phase: WalkPhase::AwaitLinkStatus, ..s })
                } else if is_dir_mode(mode) {
                    waiting(WalkState { tree: t2, stack: stack2, phase: WalkPhase::ClosingForChild })
                } else {
                    let a = advance(t2, stack2);
                    (WalkState { tree: t2, stack: a.0, phase: a.1 }, a.2)
                }
            } else if s.phase == WalkPhase::AwaitLinkStatus {
                waiting(WalkState { tree: t2, stack: stack2, phase: WalkPhase::ClosingForChild })
            } else {
                waiting(s)
            }
        },
        WalkEvent::StatusFailed { errno } => if s.phase == WalkPhase::AwaitStatus {
            if errno == enoent_value() || errno == eloop_value() {
                let a = advance(t, with_top(s.stack, Frame { next: (f.next + 1) as usize, ..f }));
                (WalkState { tree: t, stack: a.0, phase: a.1 }, a.2)
            } else {
                waiting(WalkState { phase: WalkPhase::Failed, ..s })
            }
        } else if s.phase == WalkPhase::AwaitLinkStatus {
            waiting(WalkState { phase: WalkPhase::Failed, ..s })
        } else {
            waiting(s)
        },
        WalkEvent::Closed => if s.phase == WalkPhase::ClosingForChild {
            let s2 = enter(
                t,
                with_top(s.stack, Frame { fd_open: false, ..f }),
                node.entries[f.next - 1],
            );
            waiting(s2)
        } else if s.phase == WalkPhase::ClosingAtEnd {
            let a = advance(t, with_top(s.stack, Frame { fd_open: false, ..f }));
            (WalkState { tree: t, stack: a.0, phase: a.1 }, a.2)
        } else {
            waiting(s)
        },
    }
}

/// Whether every frame names an entry of the tree and has dealt with no
/// more children than that entry has.
pub open spec fn frames_in_tree(t: Seq<EntryView>, stack: Seq<Frame>) -> bool {
    forall|j: int|
        0 <= j < stack.len() ==> (#[trigger] stack[j]).node < t.len() && stack[j].next
            <= t[stack[j].node as int].entries.len()
}

/// What holds of every state of a walk: the entries form a tree, the frames
/// lie in it, and each phase has the frame on top that it needs.
pub open spec fn walk_invariant(s: WalkState) -> bool {
    let f = s.stack.last();
    let n = s.tree[f.node as int].entries.len();
    &&& is_tree(s.tree)
    &&& frames_in_tree(s.tree, s.stack)
    &&& forall|j: int|
        0 <= j < s.stack.len() - 1 ==> (#[trigger] s.stack[j]).listed && !s.stack[j].fd_open
    &&& (s.phase != WalkPhase::Done && s.phase != WalkPhase::Failed ==> s.stack.len() > 0)
    &&& (s.phase == WalkPhase::Opening ==> !f.fd_open && (f.listed ==> f.next < n))
    &&& (s.phase == WalkPhase::AwaitIdentity ==> f.fd_open && !f.listed
        && s.tree[f.node as int].parent is None)
    &&& (s.phase == WalkPhase::AwaitListing ==> f.fd_open && !f.listed)
    &&& (s.phase == WalkPhase::AwaitStatus ==> f.fd_open && f.listed && f.next < n)
    &&& (s.phase == WalkPhase::AwaitLinkStatus ==> f.fd_open && f.listed && f.next < n)
    &&& (s.phase == WalkPhase::ClosingForChild ==> f.fd_open && f.listed && 1 <= f.next <= n)
    &&& (s.phase == WalkPhase::ClosingAtEnd ==> f.fd_open && f.listed && f.next == n)
}

/// A walk below a directory.
pub struct TreeWalk {
    tree: DirTree,
    stack: Vec<Frame>,
    phase: WalkPhase,
}

impl View for TreeWalk {
    type V = WalkState;

    closed spec fn view(&self) -> WalkState {
        WalkState { tree: self.tree@, stack: self.stack@, phase: self.phase }
    }
}

impl TreeWalk {
    #[verifier::type_invariant]
    closed spec fn well_formed(self) -> bool {
        walk_invariant(self@)
    }
}


pub(crate) proof fn lemma_advance_invariant(t: Seq<EntryView>, stack: Seq<Frame>)
    requires
        is_tree(t),
        frames_in_tree(t, stack),
        forall|j: int|
            0 <= j < stack.len() - 1 ==> (#[trigger] stack[j]).listed && !stack[j].fd_open,
        stack.len() > 0 ==> stack.last().listed,
    ensures
        walk_invariant(
            WalkState { tree: t, stack: advance(t, stack).0, phase: advance(t, stack).1 },
        ),
        advance(t, stack).2 == awaited_action(
            WalkState { tree: t, stack: advance(t, stack).0, phase: advance(t, stack).1 },
        ),
    decreases stack.len(),
{
    if stack.len() > 0 {
        let f = stack.last();
        if f.next >= t[f.node as int].entries.len() && !f.fd_open {
            lemma_advance_invariant(t, stack.drop_last());
        }
    }
}

pub(crate) proof fn lemma_with_child_keeps(t: Seq<EntryView>, stack: Seq<Frame>, p: int, name: Seq<char>)
    requires
        is_tree(t),
        0 <= p < t.len(),
        t.len() < usize::MAX,
        frames_in_tree(t, stack),
    ensures
        is_tree(with_child(t, p, name)),
        frames_in_tree(with_child(t, p, name), stack),
        with_child(t, p, name).len() == t.len() + 1,
        forall|i: int| 0 <= i < t.len() ==> (#[trigger] with_child(t, p, name)[i]).parent == t[i].parent,
{
    let t2 = with_child(t, p, name);
    assert forall|i: int, k: int|
        0 <= i < t2.len() && 0 <= k < t2[i].entries.len() implies i < #[trigger] t2[i].entries[k]
        < t2.len() && t2[t2[i].entries[k] as int].parent == Some(i as usize) by {
        if i == p && k > 0 {
            assert(t2[i].entries[k] == t[i].entries[k - 1]);
        }
    }
}

fn advance_exec(tree: &DirTree, stack: &mut Vec<Frame>) -> (r: (WalkPhase, WalkAction))
    requires
        is_tree(tree@),
        frames_in_tree(tree@, old(stack)@),
    ensures
        (final(stack)@, r.0, r.1) == advance(tree@, old(stack)@),
{
    loop
        invariant
            is_tree(tree@),
            frames_in_tree(tree@, stack@),
            advance(tree@, old(stack)@) == advance(tree@, stack@),
        decreases stack@.len(),
    {
        if stack.len() == 0 {
            return (WalkPhase::Done, WalkAction::Done);
        }
        let f = stack[stack.len() - 1];
        let e = tree.entry(f.node);
        if f.next < e.entries.len() {
            if f.fd_open {
                let flags = if e.options.follow_slink { 0 } else { at_symlink_nofollow() };
                return (WalkPhase::AwaitStatus, WalkAction::StatEntry { node: e.entries[f.next], flags });
            } else {
                return (WalkPhase::Opening, WalkAction::OpenPath { node: f.node });
            }
        } else if f.fd_open {
            return (WalkPhase::ClosingAtEnd, WalkAction::CloseFd);
        } else {
            stack.pop();
        }
    }
}

fn enter_exec(tree: &mut DirTree, stack: &mut Vec<Frame>, c: usize) -> (r: WalkPhase)
    requires
        is_tree(old(tree)@),
        frames_in_tree(old(tree)@, old(stack)@),
        c < old(tree)@.len(),
    ensures
        enter(old(tree)@, old(stack)@, c) == (WalkState {
            tree: final(tree)@,
            stack: final(stack)@,
            phase: r,
        }),
{
    if tree.has_loop(c) {
        tree.mark_loop(c);
        assert(frames_in_tree(tree@, stack@));
        let (phase, _action) = advance_exec(tree, stack);
        phase
    } else {
        stack.push(Frame { node: c, next: 0, fd_open: false, listed: false });
        WalkPhase::Opening
    }
}

fn add_listing(tree: &mut DirTree, p: usize, names: &Vec<String>, Ghost(stack): Ghost<Seq<Frame>>)
    requires
        is_tree(old(tree)@),
        p < old(tree)@.len(),
        names@.len() < usize::MAX - old(tree)@.len(),
        frames_in_tree(old(tree)@, stack),
    ensures
        final(tree)@ == with_listing(old(tree)@, p as int, names@),
        is_tree(final(tree)@),
        frames_in_tree(final(tree)@, stack),
{
    let mut i: usize = 0;
    while i < names.len()
        invariant
            p < old(tree)@.len() <= tree@.len() <= old(tree)@.len() + i,
            names@.len() < usize::MAX - old(tree)@.len(),
            i <= names@.len(),
            is_tree(tree@),
            frames_in_tree(tree@, stack),
            tree@ == with_listing(old(tree)@, p as int, names@.take(i as int)),
        decreases names@.len() - i,
    {
        assert(names@.take(i + 1).drop_last() == names@.take(i as int));
        let name = names[i].as_str();
        if !(str_eq(name, ".") || str_eq(name, "..")) {
            proof {
                lemma_with_child_keeps(tree@, stack, p as int, name@);
            }
            tree.add_child(p, name);
        }
        i = i + 1;
    }
    assert(names@.take(names@.len() as int) == names@);
}

/// The state of a walk below the directory `name`, before anything was
/// done.
pub open spec fn initial_state(name: Seq<char>, options: Options) -> WalkState {
    enter(seq![fresh_entry(name, options, None)], Seq::empty(), 0)
}

impl TreeWalk {
    /// The action that the walk waits on.
    pub fn awaited(&self) -> (r: WalkAction)
        ensures
            r == awaited_action(self@),
    {
        proof {
            use_type_invariant(self);
        }
        match self.phase {
            WalkPhase::Opening => WalkAction::OpenPath { node: self.stack[self.stack.len() - 1].node },
            WalkPhase::AwaitIdentity => WalkAction::StatRoot,
            WalkPhase::AwaitListing => WalkAction::ReadDirectory,
            WalkPhase::AwaitStatus => {
                let f = self.stack[self.stack.len() - 1];
                let e = self.tree.entry(f.node);
                let flags = if e.options.follow_slink { 0 } else { at_symlink_nofollow() };
                WalkAction::StatEntry { node: e.entries[f.next], flags }
            },
            WalkPhase::AwaitLinkStatus => {
                let f = self.stack[self.stack.len() - 1];
                let e = self.tree.entry(f.node);
                WalkAction::StatEntry { node: e.entries[f.next], flags: at_symlink_nofollow() }
            },
            WalkPhase::ClosingForChild => WalkAction::CloseFd,
            WalkPhase::ClosingAtEnd => WalkAction::CloseFd,
            WalkPhase::Done => WalkAction::Done,
            WalkPhase::Failed => WalkAction::Fail,
        }
    }

    /// The tree built so far.
    pub fn tree(&self) -> (r: &DirTree)
        ensures
            r@ == self@.tree,
            is_tree(r@),
    {
        proof {
            use_type_invariant(self);
        }
        &self.tree
    }

    /// What the walk waits for.
    pub fn phase(&self) -> (r: WalkPhase)
        ensures
            r == self@.phase,
    {
        self.phase
    }

    /// Starts a walk below the directory `path` with `options`; returns it
    /// with the action it asks for first.
    pub fn new(path: &str, options: Options) -> (r: (TreeWalk, WalkAction))
        ensures
            r.0@ == initial_state(path@, options),
            r.1 == awaited_action(r.0@),
    {
        let mut tree = DirTree::new(path, options);
        let mut stack: Vec<Frame> = Vec::new();
        let phase = enter_exec(&mut tree, &mut stack, 0);
        proof {
            if repeats_ancestor(seq![fresh_entry(path@, options, None)], 0) {
                lemma_advance_invariant(tree@, Seq::empty());
            }
        }
        let w = TreeWalk { tree, stack, phase };
        let a = w.awaited();
        (w, a)
    }

    /// Takes in what the caller saw and returns the walk as it then stands,
    /// with what the caller is to do next.
    pub fn step(self, e: WalkEvent) -> (r: (TreeWalk, WalkAction))
        ensures
            (r.0@, r.1) == next(self@, e),
    {
        match e {
            WalkEvent::Opened => self.on_opened(),
            WalkEvent::Identity { dev, ino } => self.on_identity(dev, ino),
            WalkEvent::Listing(names) => self.on_listing(names),
            WalkEvent::Status { mode, dev, ino } => self.on_status(mode, dev, ino),
            WalkEvent::StatusFailed { errno } => self.on_status_failed(errno),
            WalkEvent::Closed => self.on_closed(),
        }
    }

    fn on_opened(self) -> (r: (TreeWalk, WalkAction))
        ensures
            (r.0@, r.1) == next(self@, WalkEvent::Opened),
    {
        proof {
            use_type_invariant(&self);
        }
        let TreeWalk { mut tree, mut stack, phase } = self;
        if phase == WalkPhase::Opening {
            let top = stack.len() - 1;
            let f = stack[top];
            stack.set(top, Frame { fd_open: true, ..f });
            let new_phase = if !f.listed {
                if tree.entry(f.node).parent.is_none() {
                    WalkPhase::AwaitIdentity
                } else {
                    WalkPhase::AwaitListing
                }
            } else {
                WalkPhase::AwaitStatus
            };
            let w = TreeWalk { tree, stack, phase: new_phase };
            let a = w.awaited();
            (w, a)
        } else {
            let w = TreeWalk { tree, stack, phase };
            let a = w.awaited();
            (w, a)
        }
    }

    fn on_identity(self, dev: libc::dev_t, ino: libc::ino_t) -> (r: (TreeWalk, WalkAction))
        ensures
            (r.0@, r.1) == next(self@, WalkEvent::Identity { dev, ino }),
    {
        proof {
            use_type_invariant(&self);
        }
        let TreeWalk { mut tree, mut stack, phase } = self;
        if phase == WalkPhase::AwaitIdentity {
            let f = stack[stack.len() - 1];
            tree.set_identity(f.node, dev, ino);
            let w = TreeWalk { tree, stack, phase: WalkPhase::AwaitListing };
            let a = w.awaited();
            (w, a)
        } else {
            let w = TreeWalk { tree, stack, phase };
            let a = w.awaited();
            (w, a)
        }
    }

    fn on_listing(self, names: Vec<String>) -> (r: (TreeWalk, WalkAction))
        ensures
            (r.0@, r.1) == next(self@, WalkEvent::Listing(names)),
    {
        proof {
            use_type_invariant(&self);
        }
        let TreeWalk { mut tree, mut stack, phase } = self;
        if phase == WalkPhase::AwaitListing {
            if names.len() >= usize::MAX - tree.len() {
                let w = TreeWalk { tree, stack, phase: WalkPhase::Failed };
                let a = w.awaited();
                (w, a)
            } else {
                let top = stack.len() - 1;
                let f = stack[top];
                add_listing(&mut tree, f.node, &names, Ghost(stack@));
                stack.set(top, Frame { fd_open: false, listed: true, ..f });
                proof {
                    lemma_advance_invariant(tree@, stack@);
                }
                let (new_phase, a) = advance_exec(&tree, &mut stack);
                (TreeWalk { tree, stack, phase: new_phase }, a)
            }
        } else {
            let w = TreeWalk { tree, stack, phase };
            let a = w.awaited();
            (w, a)
        }
    }

    fn on_status(self, mode: libc::mode_t, dev: libc::dev_t, ino: libc::ino_t) -> (r: (TreeWalk, WalkAction))
        ensures
            (r.0@, r.1) == next(self@, WalkEvent::Status { mode, dev, ino }),
    {
        proof {
            use_type_invariant(&self);
        }
        let TreeWalk { mut tree, mut stack, phase } = self;
        if phase == WalkPhase::AwaitStatus || phase == WalkPhase::AwaitLinkStatus {
            let top = stack.len() - 1;
            let f = stack[top];
            let follow = tree.entry(f.node).options.follow_slink;
            let c = tree.entry(f.node).entries[f.next];
            let is_dir = s_isdir(mode);
            if phase == WalkPhase::AwaitStatus && is_dir && follow {
                let w = TreeWalk { tree, stack, phase: WalkPhase::AwaitLinkStatus };
                let a = w.awaited();
                (w, a)
            } else {
                let n = tree.entry(f.node).entries.len();
                assert(f.next < n);
                tree.set_identity(c, dev, ino);
                stack.set(top, Frame { next: f.next + 1, ..f });
                if phase == WalkPhase::AwaitLinkStatus || is_dir {
                    let w = TreeWalk { tree, stack, phase: WalkPhase::ClosingForChild };
                    let a = w.awaited();
                    (w, a)
                } else {
                    proof {
                        lemma_advance_invariant(tree@, stack@);
                    }
                    let (new_phase, a) = advance_exec(&tree, &mut stack);
                    (TreeWalk { tree, stack, phase: new_phase }, a)
                }
            }
        } else {
            let w = TreeWalk { tree, stack, phase };
            let a = w.awaited();
            (w, a)
        }
    }

    fn on_status_failed(self, errno: libc::c_int) -> (r: (TreeWalk, WalkAction))
        ensures
            (r.0@, r.1) == next(self@, WalkEvent::StatusFailed { errno }),
    {
        proof {
            use_type_invariant(&self);
        }
        let TreeWalk { mut tree, mut stack, phase } = self;
        if phase == WalkPhase::AwaitStatus && (errno == enoent() || errno == eloop()) {
            let top = stack.len() - 1;
            let f = stack[top];
            let n = tree.entry(f.node).entries.len();
            assert(f.next < n);
            stack.set(top, Frame { next: f.next + 1, ..f });
            proof {
                lemma_advance_invariant(tree@, stack@);
            }
            let (new_phase, a) = advance_exec(&tree, &mut stack);
            (TreeWalk { tree, stack, phase: new_phase }, a)
        } else if phase == WalkPhase::AwaitStatus || phase == WalkPhase::AwaitLinkStatus {
            let w = TreeWalk { tree, stack, phase: WalkPhase::Failed };
            let a = w.awaited();
            (w, a)
        } else {
            let w = TreeWalk { tree, stack, phase };
            let a = w.awaited();
            (w, a)
        }
    }

    fn on_closed(self) -> (r: (TreeWalk, WalkAction))
        ensures
            (r.0@, r.1) == next(self@, WalkEvent::Closed),
    {
        proof {
            use_type_invariant(&self);
        }
        let TreeWalk { mut tree, mut stack, phase } = self;
        if phase == WalkPhase::ClosingForChild {
            let top = stack.len() - 1;
            let f = stack[top];
            let c = tree.entry(f.node).entries[f.next - 1];
            stack.set(top, Frame { fd_open: false, ..f });
            let ghost t0 = tree@;
            let ghost st0 = stack@;
            let new_phase = enter_exec(&mut tree, &mut stack, c);
            proof {
                if repeats_ancestor(t0, c as int) {
                    lemma_advance_invariant(
                        t0.update(c as int, EntryView { loop_found: true, ..t0[c as int] }),
                        st0,
                    );
                }
            }
            let w = TreeWalk { tree, stack, phase: new_phase };
            let a = w.awaited();
            (w, a)
        } else if phase == WalkPhase::ClosingAtEnd {
            let top = stack.len() - 1;
            let f = stack[top];
            stack.set(top, Frame { fd_open: false, ..f });
            proof {
                lemma_advance_invariant(tree@, stack@);
            }
            let (new_phase, a) = advance_exec(&tree, &mut stack);
            (TreeWalk { tree, stack, phase: new_phase }, a)
        } else {
            let w = TreeWalk { tree, stack, phase };
            let a = w.awaited();
            (w, a)
        }
    }
}

} // verus!
