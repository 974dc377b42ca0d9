//! The tree of entries found below a directory, held as an arena: entry 0
//! is the directory the walk started from, and every other entry names its
//! parent by position. A parent always comes before its children.
use std::collections::VecDeque;
use vstd::prelude::*;

use crate::sys::{o_directory, o_directory_value, o_nofollow, o_nofollow_value, o_rdonly, o_rdonly_value};

verus! {

/// The choices that shape a walk.
#[derive(Clone, Copy, PartialEq, Eq, Structural, Debug)]
pub struct Options {
    /// Follow symbolic links to directories.
    pub follow_slink: bool,
    /// Show an inode only once, under the first name met.
    pub prevent_multiple_pathnames: bool,
}

impl Options {
    /// Options with the two choices given.
    pub fn new(follow_slink: bool, prevent_multiple_pathnames: bool) -> (r: Options)
        ensures
            r.follow_slink == follow_slink,
            r.prevent_multiple_pathnames == prevent_multiple_pathnames,
    {
        Options { follow_slink, prevent_multiple_pathnames }
    }
}

/// The flags to open the directory of an entry with: read only, directory
/// only, and not through a symbolic link unless links are followed.
pub open spec fn open_mode_for(options: Options) -> libc::c_int {
    if options.follow_slink {
        o_rdonly_value() | o_directory_value()
    } else {
        o_rdonly_value() | o_directory_value() | o_nofollow_value()
    }
}

/// An entry's directory is opened without going through a symbolic link
/// exactly when links are not followed; it is always opened read only and
/// as a directory.
pub proof fn lemma_open_mode(options: Options)
    ensures
        (open_mode_for(options) & o_nofollow_value() != 0) == !options.follow_slink,
        open_mode_for(options) & o_directory_value() != 0,
        open_mode_for(options) & 3 == o_rdonly_value(),
{
    assert((0i32 | 0x10000i32) & 0x20000i32 == 0) by (bit_vector);
    assert((0i32 | 0x10000i32 | 0x20000i32) & 0x20000i32 != 0) by (bit_vector);
    assert((0i32 | 0x10000i32) & 0x10000i32 != 0) by (bit_vector);
    assert((0i32 | 0x10000i32 | 0x20000i32) & 0x10000i32 != 0) by (bit_vector);
    assert((0i32 | 0x10000i32) & 3 == 0) by (bit_vector);
    assert((0i32 | 0x10000i32 | 0x20000i32) & 3 == 0) by (bit_vector);
}

/// One entry of the tree.
pub struct DirEntry {
    /// The entry's name in its parent directory (the path given, for the
    /// first entry).
    pub name: String,
    /// The position of the parent entry.
    pub parent: Option<usize>,
    /// The positions of the children, the last one read first.
    pub entries: VecDeque<usize>,
    /// Identity of the entry, once it was read.
    pub dev: libc::dev_t,
    pub ino: libc::ino_t,
    /// The entry is a directory that one of its ancestors already is.
    pub loop_found: bool,
    /// Kept for display; no walk sets it.
    pub cycle: bool,
    /// The flags to open the entry's directory with.
    pub open_mode: libc::c_int,
    pub options: Options,
}

/// The content of an entry.
pub struct EntryView {
    pub name: Seq<char>,
    pub parent: Option<usize>,
    pub entries: Seq<usize>,
    pub dev: libc::dev_t,
    pub ino: libc::ino_t,
    pub loop_found: bool,
    pub cycle: bool,
    pub open_mode: libc::c_int,
    pub options: Options,
}

impl View for DirEntry {
    type V = EntryView;

    open spec fn view(&self) -> EntryView {
        EntryView {
            name: self.name@,
            parent: self.parent,
            entries: self.entries@,
            dev: self.dev,
            ino: self.ino,
            loop_found: self.loop_found,
            cycle: self.cycle,
            open_mode: self.open_mode,
            options: self.options,
        }
    }
}

/// A new entry named `name` under `parent`: no children, identity unknown
/// (zero), no loop.
pub open spec fn fresh_entry(name: Seq<char>, options: Options, parent: Option<usize>) -> EntryView {
    EntryView {
        name,
        parent,
        entries: Seq::empty(),
        dev: 0,
        ino: 0,
        loop_found: false,
        cycle: false,
        open_mode: open_mode_for(options),
        options,
    }
}

impl DirEntry {
    /// A new entry named `name` under `parent`, with the open flags that
    /// `options` call for.
    pub fn new(name: &str, options: Options, parent: Option<usize>) -> (r: DirEntry)
        ensures
            r@ == fresh_entry(name@, options, parent),
    {
        let mut open_mode = o_rdonly() | o_directory();
        if !options.follow_slink {
            open_mode = open_mode | o_nofollow();
        }
        DirEntry {
            name: name.to_owned(),
            parent,
            entries: VecDeque::new(),
            dev: 0,
            ino: 0,
            loop_found: false,
            cycle: false,
            open_mode,
            options,
        }
    }
}

/// Whether a sequence of entries is a tree: it has a first entry with no
/// parent, every other entry has a parent before it, and the children of
/// each entry are different entries that come after it and name it as
/// their parent. Each entry also has the open flags its options call for.
pub open spec fn is_tree(t: Seq<EntryView>) -> bool {
    &&& 0 < t.len() <= usize::MAX
    &&& forall|i: int| 0 <= i < t.len() ==> #[trigger] t[i].open_mode == open_mode_for(t[i].options)
    &&& forall|i: int| 0 <= i < t.len() ==> (#[trigger] t[i].entries).len() < t.len()
    &&& forall|i: int, k1: int, k2: int|
        0 <= i < t.len() && 0 <= k1 < t[i].entries.len() && 0 <= k2 < t[i].entries.len() && k1
            != k2 ==> #[trigger] t[i].entries[k1] != #[trigger] t[i].entries[k2]
    &&& t[0].parent is None
    &&& forall|i: int| 0 < i < t.len() ==> (#[trigger] t[i].parent matches Some(p) && p < i)
    &&& forall|i: int, k: int|
        0 <= i < t.len() && 0 <= k < t[i].entries.len() ==> i < #[trigger] t[i].entries[k] < t.len()
            && t[t[i].entries[k] as int].parent == Some(i as usize)
}

/// The positions of the entries from the first one down to entry `i`.
pub open spec fn path_to(t: Seq<EntryView>, i: int) -> Seq<usize>
    decreases i,
{
    if 0 <= i < t.len() {
        match t[i].parent {
            Some(p) => if 0 <= p < i {
                path_to(t, p as int).push(i as usize)
            } else {
                seq![i as usize]
            },
            None => seq![i as usize],
        }
    } else {
        Seq::empty()
    }
}

/// Whether entry `i` has the identity of one of its ancestors.
pub open spec fn repeats_ancestor(t: Seq<EntryView>, i: int) -> bool {
    exists|k: int|
        0 <= k < path_to(t, i).len() - 1 && t[#[trigger] path_to(t, i)[k] as int].dev == t[i].dev
            && t[path_to(t, i)[k] as int].ino == t[i].ino
}

/// The entry `d` parent links above entry `i`, if the links go that far.
pub open spec fn ancestor_at(t: Seq<EntryView>, i: int, d: nat) -> Option<int>
    decreases d,
{
    if !(0 <= i < t.len()) {
        None
    } else if d == 0 {
        Some(i)
    } else {
        match t[i].parent {
            Some(p) => ancestor_at(t, p as int, (d - 1) as nat),
            None => None,
        }
    }
}

/// Whether some entry one or more parent links above entry `i` has the
/// device and inode of entry `i`.
pub open spec fn has_same_identity_above(t: Seq<EntryView>, i: int) -> bool {
    exists|d: nat| 1 <= d && #[trigger] same_identity_at(t, i, d)
}

/// Whether the entry `d` parent links above entry `i` exists and has the
/// device and inode of entry `i`.
pub open spec fn same_identity_at(t: Seq<EntryView>, i: int, d: nat) -> bool {
    match ancestor_at(t, i, d) {
        Some(a) => t[a].dev == t[i].dev && t[a].ino == t[i].ino,
        None => false,
    }
}

proof fn lemma_ancestor_at_path(t: Seq<EntryView>, i: int, d: nat)
    requires
        is_tree(t),
        0 <= i < t.len(),
    ensures
        d < path_to(t, i).len() ==> ancestor_at(t, i, d) == Some(
            path_to(t, i)[path_to(t, i).len() - 1 - d] as int,
        ),
        d >= path_to(t, i).len() ==> ancestor_at(t, i, d) is None,
    decreases i,
{
    lemma_path_in_tree(t, i);
    match t[i].parent {
        Some(p) => {
            assert(0 <= p < i);
            if d > 0 {
                lemma_ancestor_at_path(t, p as int, (d - 1) as nat);
                let a = path_to(t, p as int);
                assert(path_to(t, i) == a.push(i as usize));
                if d < path_to(t, i).len() {
                    assert(path_to(t, i)[path_to(t, i).len() - 1 - d] == a[a.len() - 1 - (d - 1)]);
                }
            }
        },
        None => {},
    }
}

/// An entry repeats an ancestor exactly when some entry one or more parent
/// links above it, at any distance and not only the first entry, has its
/// device and inode.
pub proof fn lemma_repeats_ancestor_iff(t: Seq<EntryView>, i: int)
    requires
        is_tree(t),
        0 <= i < t.len(),
    ensures
        repeats_ancestor(t, i) == has_same_identity_above(t, i),
{
    lemma_path_in_tree(t, i);
    let pa = path_to(t, i);
    let n = pa.len();
    if repeats_ancestor(t, i) {
        let k = choose|k: int|
            0 <= k < n - 1 && t[#[trigger] pa[k] as int].dev == t[i].dev && t[pa[k] as int].ino
                == t[i].ino;
        let d = (n - 1 - k) as nat;
        lemma_ancestor_at_path(t, i, d);
        assert(ancestor_at(t, i, d) == Some(pa[k] as int));
        assert(same_identity_at(t, i, d));
    }
    if has_same_identity_above(t, i) {
        let d = choose|d: nat| 1 <= d && #[trigger] same_identity_at(t, i, d);
        lemma_ancestor_at_path(t, i, d);
        let k = n - 1 - d;
        assert(0 <= k < n - 1);
        assert(t[pa[k] as int].dev == t[i].dev);
    }
}

/// One `openat` call of a chain that opens an entry's directory: the name
/// to open, relative to the directory opened before (the working directory
/// for the first), and the flags.
pub struct OpenStep {
    pub name: String,
    pub flags: libc::c_int,
}

/// The flags of step `k` of the chain that opens entry `i`: the entry's
/// open flags, except that the first step may go through a symbolic link.
pub open spec fn step_flags(t: Seq<EntryView>, i: int, k: int) -> libc::c_int {
    if k == 0 {
        t[i].open_mode & !o_nofollow_value()
    } else {
        t[i].open_mode
    }
}

/// The way down to an entry starts at the first entry, ends at that entry,
/// passes only through entries of the tree, and goes each time from an
/// entry to one of its children.
pub proof fn lemma_path_in_tree(t: Seq<EntryView>, i: int)
    requires
        is_tree(t),
        0 <= i < t.len(),
    ensures
        path_to(t, i).len() > 0,
        path_to(t, i).last() == i,
        path_to(t, i)[0] == 0,
        forall|j: int| 0 <= j < path_to(t, i).len() ==> 0 <= #[trigger] path_to(t, i)[j] < t.len(),
        forall|j: int| 0 <= j < path_to(t, i).len() - 1 ==> #[trigger] path_to(t, i)[j] < i,
        forall|j: int|
            0 < j < path_to(t, i).len() ==> t[#[trigger] path_to(t, i)[j] as int].parent == Some(
                path_to(t, i)[j - 1],
            ),
    decreases i,
{
    match t[i].parent {
        Some(p) => if 0 <= p < i {
            lemma_path_in_tree(t, p as int);
            let a = path_to(t, p as int);
            assert forall|j: int| 0 <= j < path_to(t, i).len() implies 0 <= #[trigger] path_to(
                t,
                i,
            )[j] < t.len() by {
                if j < a.len() {
                    assert(path_to(t, i)[j] == a[j]);
                }
            }
            assert forall|j: int| 0 <= j < path_to(t, i).len() - 1 implies #[trigger] path_to(t, i)[j]
                < i by {
                assert(path_to(t, i)[j] == a[j]);
                assert(a[j] <= p);
            }
            assert forall|j: int| 0 < j < path_to(t, i).len() implies t[#[trigger] path_to(
                t,
                i,
            )[j] as int].parent == Some(path_to(t, i)[j - 1]) by {
                if j < a.len() {
                    assert(path_to(t, i)[j] == a[j]);
                    assert(path_to(t, i)[j - 1] == a[j - 1]);
                } else {
                    assert(path_to(t, i)[j - 1] == a.last());
                }
            }
        },
        None => {},
    }
}

/// The line that shows an entry: `level` spaces, its name, then ` (loop)`
/// and ` (cycle)` when it is so marked.
pub open spec fn entry_line(e: EntryView, level: nat) -> Seq<char> {
    Seq::new(level, |_j: int| ' ') + e.name + (if e.loop_found {
        " (loop)"@
    } else {
        Seq::empty()
    }) + (if e.cycle {
        " (cycle)"@
    } else {
        Seq::empty()
    })
}

/// The lines that show entry `i` and what lies below it, each level two
/// spaces deeper, with the inodes already shown in `seen`; and the inodes
/// shown once done. When inodes are to be shown once, an entry whose inode
/// was shown is left out with all below it.
pub open spec fn shown(t: Seq<EntryView>, i: int, level: nat, seen: Set<libc::ino_t>) -> (
    Seq<Seq<char>>,
    Set<libc::ino_t>,
)
    decreases t.len() - i, 1int, 0int,
{
    if !(0 <= i < t.len()) {
        (Seq::empty(), seen)
    } else if t[i].options.prevent_multiple_pathnames && seen.contains(t[i].ino) {
        (Seq::empty(), seen)
    } else {
        let below = shown_children(t, i, 0, level + 2, seen.insert(t[i].ino));
        (seq![entry_line(t[i], level)] + below.0, below.1)
    }
}

/// The lines that show the children of entry `i` from the `k`th on, and
/// the inodes shown once done.
pub open spec fn shown_children(
    t: Seq<EntryView>,
    i: int,
    k: int,
    level: nat,
    seen: Set<libc::ino_t>,
) -> (Seq<Seq<char>>, Set<libc::ino_t>)
    decreases t.len() - i, 0int, t[i].entries.len() - k,
{
    if !(0 <= i < t.len()) || k < 0 || k >= t[i].entries.len() {
        (Seq::empty(), seen)
    } else if t[i].entries[k] <= i || t[i].entries[k] >= t.len() {
        (Seq::empty(), seen)
    } else {
        let first = shown(t, t[i].entries[k] as int, level, seen);
        let rest = shown_children(t, i, k + 1, level, first.1);
        (first.0 + rest.0, rest.1)
    }
}

/// The lines that show entry `i` and all below it in pre-order: the entry
/// at depth `level`, then what lies below each child, in the order of its
/// entries, two spaces deeper.
pub open spec fn preorder(t: Seq<EntryView>, i: int, level: nat) -> Seq<Seq<char>>
    decreases t.len() - i, 1int, 0int,
{
    if !(0 <= i < t.len()) {
        Seq::empty()
    } else {
        seq![entry_line(t[i], level)] + preorder_children(t, i, 0, level + 2)
    }
}

/// The pre-order lines of the children of entry `i` from the `k`th on.
pub open spec fn preorder_children(t: Seq<EntryView>, i: int, k: int, level: nat) -> Seq<Seq<char>>
    decreases t.len() - i, 0int, t[i].entries.len() - k,
{
    if !(0 <= i < t.len()) || k < 0 || k >= t[i].entries.len() {
        Seq::empty()
    } else if t[i].entries[k] <= i || t[i].entries[k] >= t.len() {
        Seq::empty()
    } else {
        preorder(t, t[i].entries[k] as int, level) + preorder_children(t, i, k + 1, level)
    }
}

/// Whether no entry asks to show each inode once.
pub open spec fn none_show_once(t: Seq<EntryView>) -> bool {
    forall|i: int| 0 <= i < t.len() ==> !(#[trigger] t[i]).options.prevent_multiple_pathnames
}

/// When no entry asks to show each inode once, the tree is shown in full,
/// in pre-order, whatever inodes were seen before.
pub proof fn lemma_shown_in_full(t: Seq<EntryView>, i: int, level: nat, seen: Set<libc::ino_t>)
    requires
        none_show_once(t),
    ensures
        shown(t, i, level, seen).0 == preorder(t, i, level),
    decreases t.len() - i, 1int, 0int,
{
    if 0 <= i < t.len() {
        lemma_shown_children_in_full(t, i, 0, level + 2, seen.insert(t[i].ino));
    }
}

proof fn lemma_shown_children_in_full(
    t: Seq<EntryView>,
    i: int,
    k: int,
    level: nat,
    seen: Set<libc::ino_t>,
)
    requires
        none_show_once(t),
    ensures
        shown_children(t, i, k, level, seen).0 == preorder_children(t, i, k, level),
    decreases t.len() - i, 0int, t[i].entries.len() - k,
{
    if 0 <= i < t.len() && 0 <= k < t[i].entries.len() && i < t[i].entries[k] < t.len() {
        let c = t[i].entries[k] as int;
        lemma_shown_in_full(t, c, level, seen);
        lemma_shown_children_in_full(t, i, k + 1, level, shown(t, c, level, seen).1);
    }
}

/// The entries that `shown` shows, in the order of their lines, and the
/// inodes shown once done.
pub open spec fn shown_nodes(t: Seq<EntryView>, i: int, seen: Set<libc::ino_t>) -> (
    Seq<int>,
    Set<libc::ino_t>,
)
    decreases t.len() - i, 1int, 0int,
{
    if !(0 <= i < t.len()) {
        (Seq::empty(), seen)
    } else if t[i].options.prevent_multiple_pathnames && seen.contains(t[i].ino) {
        (Seq::empty(), seen)
    } else {
        let below = shown_children_nodes(t, i, 0, seen.insert(t[i].ino));
        (seq![i] + below.0, below.1)
    }
}

/// The entries that `shown_children` shows, and the inodes shown once done.
pub open spec fn shown_children_nodes(
    t: Seq<EntryView>,
    i: int,
    k: int,
    seen: Set<libc::ino_t>,
) -> (Seq<int>, Set<libc::ino_t>)
    decreases t.len() - i, 0int, t[i].entries.len() - k,
{
    if !(0 <= i < t.len()) || k < 0 || k >= t[i].entries.len() {
        (Seq::empty(), seen)
    } else if t[i].entries[k] <= i || t[i].entries[k] >= t.len() {
        (Seq::empty(), seen)
    } else {
        let first = shown_nodes(t, t[i].entries[k] as int, seen);
        let rest = shown_children_nodes(t, i, k + 1, first.1);
        (first.0 + rest.0, rest.1)
    }
}

/// Whether every entry asks to show each inode once.
pub open spec fn all_show_once(t: Seq<EntryView>) -> bool {
    forall|i: int| 0 <= i < t.len() ==> (#[trigger] t[i]).options.prevent_multiple_pathnames
}

/// What showing the entries `ns`, starting with the inodes `seen`, leaves:
/// one line per entry, inodes pairwise different and none seen before, and
/// the inodes seen are those seen before and those shown.
pub open spec fn shows_once(
    t: Seq<EntryView>,
    ns: Seq<int>,
    seen: Set<libc::ino_t>,
    after: Set<libc::ino_t>,
) -> bool {
    &&& forall|a: int| 0 <= a < ns.len() ==> 0 <= #[trigger] ns[a] < t.len()
    &&& forall|a: int| 0 <= a < ns.len() ==> !seen.contains(t[#[trigger] ns[a]].ino)
    &&& forall|a: int, b: int|
        0 <= a < b < ns.len() ==> t[#[trigger] ns[a]].ino != t[#[trigger] ns[b]].ino
    &&& forall|x: libc::ino_t|
        #[trigger] after.contains(x) <==> seen.contains(x) || exists|a: int|
            0 <= a < ns.len() && t[#[trigger] ns[a]].ino == x
}

proof fn lemma_shows_once_concat(
    t: Seq<EntryView>,
    n1: Seq<int>,
    n2: Seq<int>,
    s0: Set<libc::ino_t>,
    s1: Set<libc::ino_t>,
    s2: Set<libc::ino_t>,
)
    requires
        shows_once(t, n1, s0, s1),
        shows_once(t, n2, s1, s2),
    ensures
        shows_once(t, n1 + n2, s0, s2),
{
    let ns = n1 + n2;
    assert forall|a: int| 0 <= a < ns.len() implies 0 <= #[trigger] ns[a] < t.len() by {
        if a >= n1.len() {
            assert(ns[a] == n2[a - n1.len()]);
        }
    }
    assert forall|a: int| 0 <= a < ns.len() implies !s0.contains(t[#[trigger] ns[a]].ino) by {
        if a >= n1.len() {
            assert(ns[a] == n2[a - n1.len()]);
            assert(!s1.contains(t[n2[a - n1.len()]].ino));
        }
    }
    assert forall|a: int, b: int| 0 <= a < b < ns.len() implies t[#[trigger] ns[a]].ino
        != t[#[trigger] ns[b]].ino by {
        if b >= n1.len() {
            assert(ns[b] == n2[b - n1.len()]);
            assert(!s1.contains(t[n2[b - n1.len()]].ino));
            if a < n1.len() {
                assert(ns[a] == n1[a]);
                assert(s1.contains(t[n1[a]].ino));
            } else {
                assert(ns[a] == n2[a - n1.len()]);
            }
        }
    }
    assert forall|x: libc::ino_t| #[trigger] s2.contains(x) <==> s0.contains(x) || exists|a: int|
        0 <= a < ns.len() && t[#[trigger] ns[a]].ino == x by {
        if s2.contains(x) && !s0.contains(x) {
            if s1.contains(x) {
                let a = choose|a: int| 0 <= a < n1.len() && t[n1[a]].ino == x;
                assert(ns[a] == n1[a]);
            } else {
                let a = choose|a: int| 0 <= a < n2.len() && t[n2[a]].ino == x;
                assert(ns[a + n1.len()] == n2[a]);
            }
        }
        if exists|a: int| 0 <= a < ns.len() && t[#[trigger] ns[a]].ino == x {
            let a = choose|a: int| 0 <= a < ns.len() && t[ns[a]].ino == x;
            if a < n1.len() {
                assert(ns[a] == n1[a]);
                assert(s1.contains(x));
            } else {
                assert(ns[a] == n2[a - n1.len()]);
            }
        }
    }
}

/// When every entry asks to show each inode once, the tree is shown with
/// one line per entry shown, no inode shown twice nor one seen before, and
/// the inodes seen afterwards are those seen before and those shown.
pub proof fn lemma_shown_once(t: Seq<EntryView>, i: int, level: nat, seen: Set<libc::ino_t>)
    requires
        all_show_once(t),
    ensures
        shown(t, i, level, seen).0.len() == shown_nodes(t, i, seen).0.len(),
        shown(t, i, level, seen).1 == shown_nodes(t, i, seen).1,
        shows_once(t, shown_nodes(t, i, seen).0, seen, shown_nodes(t, i, seen).1),
    decreases t.len() - i, 1int, 0int,
{
    if 0 <= i < t.len() && !seen.contains(t[i].ino) {
        let s1 = seen.insert(t[i].ino);
        lemma_shown_children_once(t, i, 0, level + 2, s1);
        let below = shown_children_nodes(t, i, 0, s1);
        assert(shows_once(t, seq![i], seen, s1)) by {
            assert forall|x: libc::ino_t| #[trigger] s1.contains(x) <==> seen.contains(x) || exists|
                a: int,
            | 0 <= a < seq![i].len() && t[#[trigger] seq![i][a]].ino == x by {
                if x == t[i].ino {
                    assert(seq![i][0] == i);
                }
            }
        }
        lemma_shows_once_concat(t, seq![i], below.0, seen, s1, below.1);
    } else if 0 <= i < t.len() {
        assert(shows_once(t, Seq::empty(), seen, seen));
    }
}

proof fn lemma_shown_children_once(
    t: Seq<EntryView>,
    i: int,
    k: int,
    level: nat,
    seen: Set<libc::ino_t>,
)
    requires
        all_show_once(t),
    ensures
        shown_children(t, i, k, level, seen).0.len() == shown_children_nodes(t, i, k, seen).0.len(),
        shown_children(t, i, k, level, seen).1 == shown_children_nodes(t, i, k, seen).1,
        shows_once(
            t,
            shown_children_nodes(t, i, k, seen).0,
            seen,
            shown_children_nodes(t, i, k, seen).1,
        ),
    decreases t.len() - i, 0int, t[i].entries.len() - k,
{
    if !(0 <= i < t.len()) || k < 0 || k >= t[i].entries.len() || t[i].entries[k] <= i
        || t[i].entries[k] >= t.len() {
        assert(shows_once(t, Seq::empty(), seen, seen));
    } else {
        let c = t[i].entries[k] as int;
        lemma_shown_once(t, c, level, seen);
        let first = shown_nodes(t, c, seen);
        lemma_shown_children_once(t, i, k + 1, level, first.1);
        let rest = shown_children_nodes(t, i, k + 1, first.1);
        lemma_shows_once_concat(t, first.0, rest.0, seen, first.1, rest.1);
    }
}

/// The characters of each string.
pub open spec fn texts(v: Seq<String>) -> Seq<Seq<char>> {
    v.map_values(|s: String| s@)
}

/// The first step of the chain that opens an entry may go through a
/// symbolic link (the path as given may hold one); the others keep the
/// entry's open flags.
pub proof fn lemma_first_step_follows(t: Seq<EntryView>, i: int, k: int)
    requires
        is_tree(t),
        0 <= i < t.len(),
    ensures
        step_flags(t, i, 0) & o_nofollow_value() == 0,
        step_flags(t, i, 0) & o_directory_value() != 0,
        k > 0 ==> step_flags(t, i, k) == open_mode_for(t[i].options),
{
    let m = t[i].open_mode;
    assert(m & !0x20000i32 & 0x20000i32 == 0) by (bit_vector);
    lemma_open_mode(t[i].options);
    assert(m & 0x10000i32 != 0 ==> m & !0x20000i32 & 0x10000i32 != 0) by (bit_vector);
}

/// The entries found below a directory.
pub struct DirTree {
    nodes: Vec<DirEntry>,
}

impl View for DirTree {
    type V = Seq<EntryView>;

    closed spec fn view(&self) -> Seq<EntryView> {
        self.nodes@.map_values(|e: DirEntry| e@)
    }
}

impl DirTree {
    /// A tree that holds only the directory `name`.
    pub fn new(name: &str, options: Options) -> (r: DirTree)
        ensures
            r@ == seq![fresh_entry(name@, options, None)],
            is_tree(r@),
    {
        let root = DirEntry::new(name, options, None);
        let mut nodes: Vec<DirEntry> = Vec::new();
        nodes.push(root);
        let r = DirTree { nodes };
        assert(r@ =~= seq![fresh_entry(name@, options, None)]);
        r
    }

    /// The number of entries.
    pub fn len(&self) -> (r: usize)
        ensures
            r == self@.len(),
    {
        self.nodes.len()
    }

    /// Entry `i`.
    pub fn entry(&self, i: usize) -> (r: &DirEntry)
        requires
            i < self@.len(),
        ensures
            r@ == self@[i as int],
    {
        &self.nodes[i]
    }

    /// Adds an entry named `name` below entry `parent`, in front of its
    /// other children, with the options of `parent`; returns its position.
    pub fn add_child(&mut self, parent: usize, name: &str) -> (r: usize)
        requires
            is_tree(old(self)@),
            parent < old(self)@.len(),
            old(self)@.len() < usize::MAX,
        ensures
            r == old(self)@.len(),
            final(self)@ == old(self)@.push(
                fresh_entry(name@, old(self)@[parent as int].options, Some(parent)),
            ).update(
                parent as int,
                EntryView {
                    entries: seq![r] + old(self)@[parent as int].entries,
                    ..old(self)@[parent as int]
                },
            ),
            is_tree(final(self)@),
    {
        let r = self.nodes.len();
        let child = DirEntry::new(name, self.nodes[parent].options, Some(parent));
        self.nodes.push(child);
        self.nodes[parent].entries.push_front(r);
        let ghost t = self@;
        assert(t =~= old(self)@.push(
            fresh_entry(name@, old(self)@[parent as int].options, Some(parent)),
        ).update(
            parent as int,
            EntryView { entries: seq![r] + old(self)@[parent as int].entries, ..old(self)@[parent as int] },
        ));
        assert forall|i: int, k: int|
            0 <= i < t.len() && 0 <= k < t[i].entries.len() implies i < #[trigger] t[i].entries[k]
            < t.len() && t[t[i].entries[k] as int].parent == Some(i as usize) by {
            if i == parent && k > 0 {
                assert(t[i].entries[k] == old(self)@[i].entries[k - 1]);
            }
        }
        r
    }

    /// The positions from the first entry down to entry `i`.
    fn chain_to(&self, i: usize) -> (r: VecDeque<usize>)
        requires
            is_tree(self@),
            i < self@.len(),
        ensures
            r@ == path_to(self@, i as int),
    {
        let ghost t = self@;
        let mut chain: VecDeque<usize> = VecDeque::new();
        let mut cur = i;
        let mut done = false;
        while !done
            invariant
                t == self@,
                is_tree(t),
                cur < t.len(),
                done ==> path_to(t, i as int) == chain@,
                !done ==> path_to(t, i as int) == path_to(t, cur as int) + chain@,
            decreases (if done { 0 } else { cur + 1 }),
        {
            let ghost before = chain@;
            chain.push_front(cur);
            assert(self.nodes@[cur as int]@ == t[cur as int]);
            match self.nodes[cur].parent {
                Some(p) => {
                    assert(cur > 0);
                    assert(path_to(t, cur as int) == path_to(t, p as int).push(cur));
                    assert(path_to(t, p as int) + chain@ =~= path_to(t, cur as int) + before);
                    cur = p;
                },
                None => {
                    assert(path_to(t, cur as int) == seq![cur]);
                    assert(chain@ =~= path_to(t, cur as int) + before);
                    done = true;
                },
            }
        }
        chain
    }

    /// The chain of `openat` calls that opens the directory of entry `i`:
    /// the names from the first entry down to `i`, each relative to the one
    /// before.
    pub fn open_plan(&self, i: usize) -> (r: Vec<OpenStep>)
        requires
            is_tree(self@),
            i < self@.len(),
        ensures
            r@.len() == path_to(self@, i as int).len(),
            forall|k: int|
                0 <= k < r@.len() ==> #[trigger] r@[k].name@ == self@[path_to(self@, i as int)[k] as int].name
                    && r@[k].flags == step_flags(self@, i as int, k),
    {
        let chain = self.chain_to(i);
        let mode = self.nodes[i].open_mode;
        let mut plan: Vec<OpenStep> = Vec::new();
        let mut k: usize = 0;
        while k < chain.len()
            invariant
                is_tree(self@),
                i < self@.len(),
                chain@ == path_to(self@, i as int),
                mode == self@[i as int].open_mode,
                k <= chain@.len(),
                plan@.len() == k,
                forall|j: int|
                    0 <= j < k ==> #[trigger] plan@[j].name@ == self@[chain@[j] as int].name
                        && plan@[j].flags == step_flags(self@, i as int, j),
            decreases chain@.len() - k,
        {
            let at = chain[k];
            assert(at < self@.len()) by {
                lemma_path_in_tree(self@, i as int);
            }
            assert(self.nodes@[at as int]@ == self@[at as int]);
            let name = self.nodes[at].name.clone();
            let mask = if k == 0 { o_nofollow() } else { 0 };
            assert(mode & !0i32 == mode) by (bit_vector);
            plan.push(OpenStep { name, flags: mode & !mask });
            k = k + 1;
        }
        plan
    }

    /// Tells whether entry `i` has the identity of one of its ancestors.
    pub fn has_loop(&self, i: usize) -> (r: bool)
        requires
            is_tree(self@),
            i < self@.len(),
        ensures
            r == repeats_ancestor(self@, i as int),
            r == has_same_identity_above(self@, i as int),
    {
        proof {
            lemma_repeats_ancestor_iff(self@, i as int);
        }
        let chain = self.chain_to(i);
        proof {
            lemma_path_in_tree(self@, i as int);
        }
        assert(self.nodes@[i as int]@ == self@[i as int]);
        let dev = self.nodes[i].dev;
        let ino = self.nodes[i].ino;
        let last = chain.len() - 1;
        let mut k: usize = 0;
        while k < last
            invariant
                last + 1 == chain@.len(),
                repeats_ancestor(self@, i as int) == has_same_identity_above(self@, i as int),
                is_tree(self@),
                i < self@.len(),
                chain@ == path_to(self@, i as int),
                forall|j: int| 0 <= j < chain@.len() ==> 0 <= #[trigger] chain@[j] < self@.len(),
                dev == self@[i as int].dev,
                ino == self@[i as int].ino,
                k < chain@.len(),
                forall|j: int|
                    0 <= j < k ==> !(self@[#[trigger] chain@[j] as int].dev == dev
                        && self@[chain@[j] as int].ino == ino),
            decreases chain@.len() - k,
        {
            let at = chain[k];
            assert(self.nodes@[at as int]@ == self@[at as int]);
            if self.nodes[at].dev == dev && self.nodes[at].ino == ino {
                return true;
            }
            k = k + 1;
        }
        false
    }

    /// The line that shows entry `i` at depth `level`.
    fn line_of(&self, i: usize, level: usize) -> (r: String)
        requires
            i < self@.len(),
        ensures
            r@ == entry_line(self@[i as int], level as nat),
    {
        let mut line = String::new();
        let mut j: usize = 0;
        while j < level
            invariant
                j <= level,
                line@ == Seq::new(j as nat, |_j: int| ' '),
            decreases level - j,
        {
            line.append(" ");
            proof {
                reveal_strlit(" ");
                assert(line@ =~= Seq::new((j + 1) as nat, |_j: int| ' '));
            }
            j = j + 1;
        }
        assert(self.nodes@[i as int]@ == self@[i as int]);
        let e = &self.nodes[i];
        line.append(e.name.as_str());
        let ghost base = line@;
        if e.loop_found {
            line.append(" (loop)");
        }
        assert(line@ =~= base + (if e.loop_found { " (loop)"@ } else { Seq::empty() }));
        let ghost with_loop = line@;
        if e.cycle {
            line.append(" (cycle)");
        }
        assert(line@ =~= with_loop + (if e.cycle { " (cycle)"@ } else { Seq::empty() }));
        line
    }

    /// Appends to `out` the lines that show entry `i` and what lies below
    /// it, at depth `level`, with the inodes already shown in `seen`; adds
    /// the inodes shown to `seen`.
    pub fn show_internal(
        &self,
        i: usize,
        level: usize,
        seen: &mut std::collections::HashSet<libc::ino_t>,
        out: &mut Vec<String>,
    )
        requires
            is_tree(self@),
            i < self@.len(),
            level + 2 * (self@.len() - i) <= usize::MAX,
        ensures
            texts(final(out)@) == texts(old(out)@) + shown(self@, i as int, level as nat, old(seen)@).0,
            final(seen)@ == shown(self@, i as int, level as nat, old(seen)@).1,
        decreases self@.len() - i, 1int, 0int,
    {
        broadcast use vstd::std_specs::hash::group_hash_axioms;

        assert(self.nodes@[i as int]@ == self@[i as int]);
        let e = &self.nodes[i];
        if e.options.prevent_multiple_pathnames && seen.contains(&e.ino) {
            return;
        }
        seen.insert(e.ino);
        let line = self.line_of(i, level);
        let ghost before = old(out)@;
        out.push(line);
        assert(texts(out@) =~= texts(before).push(entry_line(self@[i as int], level as nat)));
        let ghost seen1 = seen@;
        let ghost start = out@;
        let ghost t = self@;
        let ghost all = shown_children(t, i as int, 0, (level + 2) as nat, seen1);
        let mut k: usize = 0;
        while k < e.entries.len()
            invariant
                t == self@,
                is_tree(t),
                i < t.len(),
                e@ == t[i as int],
                level + 2 * (t.len() - i) <= usize::MAX,
                k <= e.entries@.len(),
                all == shown_children(t, i as int, 0, (level + 2) as nat, seen1),
                texts(start) + all.0 == texts(out@) + shown_children(
                    t,
                    i as int,
                    k as int,
                    (level + 2) as nat,
                    seen@,
                ).0,
                all.1 == shown_children(t, i as int, k as int, (level + 2) as nat, seen@).1,
            decreases e.entries@.len() - k,
        {
            let c = e.entries[k];
            assert(i < c < t.len());
            let ghost s0 = seen@;
            let ghost o0 = out@;
            self.show_internal(c, level + 2, seen, out);
            proof {
                let first = shown(t, c as int, (level + 2) as nat, s0);
                let rest = shown_children(t, i as int, k + 1, (level + 2) as nat, first.1);
                assert(shown_children(t, i as int, k as int, (level + 2) as nat, s0) == (
                    first.0 + rest.0,
                    rest.1,
                ));
                assert(texts(o0) + (first.0 + rest.0) =~= texts(out@) + rest.0);
            }
            k = k + 1;
        }
        proof {
            assert(texts(start) =~= texts(before) + seq![entry_line(t[i as int], level as nat)]);
            assert(texts(out@) =~= texts(before) + (seq![entry_line(t[i as int], level as nat)] + all.0));
        }
    }

    /// The lines that show the whole tree, the first entry at depth `level`.
    pub fn show(&self, level: usize) -> (r: Vec<String>)
        requires
            is_tree(self@),
            level + 2 * self@.len() <= usize::MAX,
        ensures
            texts(r@) == shown(self@, 0, level as nat, Set::empty()).0,
    {
        let mut seen_inodes: std::collections::HashSet<libc::ino_t> = std::collections::HashSet::new();
        let mut out: Vec<String> = Vec::new();
        self.show_internal(0, level, &mut seen_inodes, &mut out);
        assert(texts(out@) =~= texts(Seq::<String>::empty()) + shown(self@, 0, level as nat, Set::empty()).0);
        out
    }

    /// The lines that show the whole tree, the first entry at depth zero.
    pub fn show_default(&self) -> (r: Vec<String>)
        requires
            is_tree(self@),
            2 * self@.len() <= usize::MAX,
        ensures
            texts(r@) == shown(self@, 0, 0, Set::empty()).0,
    {
        self.show(0)
    }

    /// Records the identity of entry `i`.
    pub fn set_identity(&mut self, i: usize, dev: libc::dev_t, ino: libc::ino_t)
        requires
            i < old(self)@.len(),
        ensures
            final(self)@ == old(self)@.update(i as int, EntryView { dev, ino, ..old(self)@[i as int] }),
            is_tree(old(self)@) ==> is_tree(final(self)@),
    {
        self.nodes[i].dev = dev;
        self.nodes[i].ino = ino;
        assert(self@ =~= old(self)@.update(i as int, EntryView { dev, ino, ..old(self)@[i as int] }));
    }

    /// Marks entry `i` as repeating one of its ancestors.
    pub fn mark_loop(&mut self, i: usize)
        requires
            i < old(self)@.len(),
        ensures
            final(self)@ == old(self)@.update(i as int, EntryView { loop_found: true, ..old(self)@[i as int] }),
            is_tree(old(self)@) ==> is_tree(final(self)@),
    {
        self.nodes[i].loop_found = true;
        assert(self@ =~= old(self)@.update(i as int, EntryView { loop_found: true, ..old(self)@[i as int] }));
    }
}

} // verus!
