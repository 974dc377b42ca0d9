//! What every step of a walk keeps, and what reading a directory does to
//! the tree.
use vstd::prelude::*;

use crate::mode::is_dir_mode;
use crate::sys::{eloop_value, enoent_value};
use crate::tree::{fresh_entry, is_tree, lemma_path_in_tree, path_to, repeats_ancestor, EntryView, Options};
use crate::walk::{
    advance, enter, initial_state, is_dot_entry, lemma_advance_invariant, lemma_with_child_keeps,
    next, walk_invariant, with_child, with_listing, with_top, frames_in_tree, Frame, WalkEvent,
    WalkPhase, WalkState,
};

verus! {

/// Whether every frame below the top has had its directory read and has no
/// descriptor open.
pub open spec fn lower_settled(stack: Seq<Frame>) -> bool {
    forall|j: int| 0 <= j < stack.len() - 1 ==> (#[trigger] stack[j]).listed && !stack[j].fd_open
}

/// The names kept from a directory listing: all but `.` and `..`, in the
/// order read.
pub open spec fn kept_names(names: Seq<String>) -> Seq<Seq<char>>
    decreases names.len(),
{
    if names.len() == 0 {
        Seq::empty()
    } else if is_dot_entry(names.last()@) {
        kept_names(names.drop_last())
    } else {
        kept_names(names.drop_last()).push(names.last()@)
    }
}

/// The names of the children of entry `p`, in the order of its entries.
pub open spec fn child_names(t: Seq<EntryView>, p: int) -> Seq<Seq<char>> {
    t[p].entries.map_values(|c: usize| t[c as int].name)
}

/// Reading a directory gives it one child for each name read but `.` and
/// `..`, put in front of its children the last read first, and leaves the
/// entries that were there as they were, but for the children list of the
/// directory.
pub proof fn lemma_listing_children(t: Seq<EntryView>, p: int, names: Seq<String>)
    requires
        is_tree(t),
        0 <= p < t.len(),
        t.len() + names.len() < usize::MAX,
    ensures
        is_tree(with_listing(t, p, names)),
        with_listing(t, p, names).len() == t.len() + kept_names(names).len(),
        kept_names(names).len() <= names.len(),
        child_names(with_listing(t, p, names), p) == kept_names(names).reverse() + child_names(t, p),
        forall|i: int|
            0 <= i < t.len() && i != p ==> #[trigger] with_listing(t, p, names)[i] == t[i],
        forall|i: int|
            t.len() <= i < with_listing(t, p, names).len() ==> (#[trigger] with_listing(
                t,
                p,
                names,
            )[i]).entries.len() == 0 && !with_listing(t, p, names)[i].loop_found,
        with_listing(t, p, names)[p].loop_found == t[p].loop_found,
        with_listing(t, p, names)[p].parent == t[p].parent,
        with_listing(t, p, names)[p].dev == t[p].dev,
        with_listing(t, p, names)[p].ino == t[p].ino,
        forall|i: int|
            t.len() <= i < with_listing(t, p, names).len() ==> (#[trigger] with_listing(
                t,
                p,
                names,
            )[i]).parent == Some(p as usize),
        with_listing(t, p, names)[p].entries.len() == kept_names(names).len() + t[p].entries.len(),
        forall|k: int|
            0 <= k < kept_names(names).len() ==> #[trigger] with_listing(t, p, names)[p].entries[k]
                >= t.len(),
        forall|k: int|
            kept_names(names).len() <= k < with_listing(t, p, names)[p].entries.len()
                ==> #[trigger] with_listing(t, p, names)[p].entries[k] == t[p].entries[k
                - kept_names(names).len()],
    decreases names.len(),
{
    if names.len() > 0 {
        let rest = names.drop_last();
        lemma_listing_children(t, p, rest);
        let w = with_listing(t, p, rest);
        if !is_dot_entry(names.last()@) {
            let x = names.last()@;
            let w2 = with_child(w, p, x);
            lemma_with_child_keeps(w, Seq::empty(), p, x);
            assert(w2[p].entries == seq![w.len() as usize] + w[p].entries);
            assert forall|k: int| 0 <= k < w[p].entries.len() implies #[trigger] w2[w[p].entries[k] as int]
                == w[w[p].entries[k] as int] by {
                assert(p < w[p].entries[k] < w.len());
            }
            assert(child_names(w2, p) =~= seq![x] + child_names(w, p));
            assert(kept_names(names).reverse() =~= seq![x] + kept_names(rest).reverse());
            assert(child_names(w2, p) =~= kept_names(names).reverse() + child_names(t, p));
            let m = kept_names(rest).len();
            assert forall|k: int| 0 <= k < kept_names(names).len() implies #[trigger] w2[p].entries[k]
                >= t.len() by {
                if k > 0 {
                    assert(w2[p].entries[k] == w[p].entries[k - 1]);
                }
            }
            assert forall|k: int| kept_names(names).len() <= k < w2[p].entries.len() implies #[trigger] w2[
                p].entries[k] == t[p].entries[k - kept_names(names).len()] by {
                assert(w2[p].entries[k] == w[p].entries[k - 1]);
            }
        }
    }
}

proof fn lemma_listing_frames(t: Seq<EntryView>, p: int, names: Seq<String>, stack: Seq<Frame>)
    requires
        is_tree(t),
        0 <= p < t.len(),
        t.len() + names.len() < usize::MAX,
        frames_in_tree(t, stack),
    ensures
        frames_in_tree(with_listing(t, p, names), stack),
    decreases names.len(),
{
    if names.len() > 0 {
        let rest = names.drop_last();
        lemma_listing_frames(t, p, rest, stack);
        lemma_listing_children(t, p, rest);
        if !is_dot_entry(names.last()@) {
            lemma_with_child_keeps(with_listing(t, p, rest), stack, p, names.last()@);
        }
    }
}

proof fn lemma_relabel_keeps(t: Seq<EntryView>, stack: Seq<Frame>, c: int, e: EntryView)
    requires
        is_tree(t),
        frames_in_tree(t, stack),
        0 <= c < t.len(),
        e.parent == t[c].parent,
        e.entries == t[c].entries,
        e.open_mode == t[c].open_mode,
        e.options == t[c].options,
    ensures
        is_tree(t.update(c, e)),
        frames_in_tree(t.update(c, e), stack),
{
    let t2 = t.update(c, e);
    assert forall|i: int, k: int|
        0 <= i < t2.len() && 0 <= k < t2[i].entries.len() implies i < #[trigger] t2[i].entries[k]
        < t2.len() && t2[t2[i].entries[k] as int].parent == Some(i as usize) by {
        assert(t2[i].entries[k] == t[i].entries[k]);
    }
}

/// Every step of a walk keeps what holds of all its states: the entries
/// form a tree, the directories being walked are entries of it, the ones
/// below the top were read and have no descriptor open, and each phase has
/// the frame on top that it needs.
pub proof fn lemma_next_keeps_invariant(s: WalkState, e: WalkEvent)
    requires
        walk_invariant(s),
    ensures
        walk_invariant(next(s, e).0),
{
    let t = s.tree;
    let f = s.stack.last();
    let node = t[f.node as int];
    match e {
        WalkEvent::Opened => {
            if s.phase == WalkPhase::Opening {
                let st = with_top(s.stack, Frame { fd_open: true, ..f });
                assert(frames_in_tree(t, st)) by {
                    assert forall|j: int| 0 <= j < st.len() implies (#[trigger] st[j]).node < t.len()
                        && st[j].next <= t[st[j].node as int].entries.len() by {
                        assert(st[j].node == s.stack[j].node && st[j].next == s.stack[j].next);
                    }
                }
                assert forall|j: int| 0 <= j < st.len() - 1 implies (#[trigger] st[j]).listed
                    && !st[j].fd_open by {
                    assert(st[j] == s.stack[j]);
                }
            }
        },
        WalkEvent::Identity { dev, ino } => {
            if s.phase == WalkPhase::AwaitIdentity {
                lemma_relabel_keeps(t, s.stack, f.node as int, EntryView { dev, ino, ..node });
            }
        },
        WalkEvent::Listing(names) => {
            if s.phase == WalkPhase::AwaitListing && names@.len() < usize::MAX - t.len() {
                let t2 = with_listing(t, f.node as int, names@);
                let st = with_top(s.stack, Frame { fd_open: false, listed: true, ..f });
                lemma_listing_children(t, f.node as int, names@);
                lemma_listing_frames(t, f.node as int, names@, s.stack);
                assert(frames_in_tree(t2, st)) by {
                    assert forall|j: int| 0 <= j < st.len() implies (#[trigger] st[j]).node < t2.len()
                        && st[j].next <= t2[st[j].node as int].entries.len() by {
                        assert(st[j].node == s.stack[j].node && st[j].next == s.stack[j].next);
                    }
                }
                lemma_advance_invariant(t2, st);
            }
        },
        WalkEvent::Status { mode, dev, ino } => {
            if s.phase == WalkPhase::AwaitStatus || s.phase == WalkPhase::AwaitLinkStatus {
                let c = node.entries[f.next as int];
                let t2 = t.update(c as int, EntryView { dev, ino, ..t[c as int] });
                let stack2 = with_top(s.stack, Frame { next: (f.next + 1) as usize, ..f });
                lemma_relabel_keeps(t, s.stack, c as int, EntryView { dev, ino, ..t[c as int] });
                assert(frames_in_tree(t2, stack2)) by {
                    assert forall|j: int| 0 <= j < stack2.len() implies (#[trigger] stack2[j]).node
                        < t2.len() && stack2[j].next <= t2[stack2[j].node as int].entries.len() by {
                        if j < stack2.len() - 1 {
                            assert(stack2[j] == s.stack[j]);
                        }
                    }
                }
                lemma_advance_invariant(t2, stack2);
            }
        },
        WalkEvent::StatusFailed { errno } => {
            if s.phase == WalkPhase::AwaitStatus {
                let stack2 = with_top(s.stack, Frame { next: (f.next + 1) as usize, ..f });
                assert(frames_in_tree(t, stack2)) by {
                    assert forall|j: int| 0 <= j < stack2.len() implies (#[trigger] stack2[j]).node
                        < t.len() && stack2[j].next <= t[stack2[j].node as int].entries.len() by {
                        if j < stack2.len() - 1 {
                            assert(stack2[j] == s.stack[j]);
                        }
                    }
                }
                lemma_advance_invariant(t, stack2);
            }
        },
        WalkEvent::Closed => {
            let st = with_top(s.stack, Frame { fd_open: false, ..f });
            if s.phase == WalkPhase::ClosingForChild || s.phase == WalkPhase::ClosingAtEnd {
                assert(frames_in_tree(t, st)) by {
                    assert forall|j: int| 0 <= j < st.len() implies (#[trigger] st[j]).node < t.len()
                        && st[j].next <= t[st[j].node as int].entries.len() by {
                        assert(st[j].node == s.stack[j].node && st[j].next == s.stack[j].next);
                    }
                }
            }
            if s.phase == WalkPhase::ClosingForChild {
                let c = node.entries[f.next - 1];
                assert(c < t.len());
                if repeats_ancestor(t, c as int) {
                    let t2 = t.update(c as int, EntryView { loop_found: true, ..t[c as int] });
                    lemma_relabel_keeps(t, st, c as int, EntryView { loop_found: true, ..t[c as int] });
                    lemma_advance_invariant(t2, st);
                } else {
                    let st2 = st.push(Frame { node: c, next: 0, fd_open: false, listed: false });
                    assert(frames_in_tree(t, st2)) by {
                        assert forall|j: int| 0 <= j < st2.len() implies (#[trigger] st2[j]).node
                            < t.len() && st2[j].next <= t[st2[j].node as int].entries.len() by {
                            if j < st.len() {
                                assert(st2[j] == st[j]);
                            }
                        }
                    }
                }
            } else if s.phase == WalkPhase::ClosingAtEnd {
                lemma_advance_invariant(t, st);
            }
        },
    }
}

/// Whether the children of entry `p` from position `from` on are as read:
/// none has children of its own or is marked as a loop.
pub open spec fn untouched_from(t: Seq<EntryView>, p: int, from: int) -> bool {
    forall|k: int|
        #![trigger t[p].entries[k]]
        0 <= k && from <= k < t[p].entries.len() ==> t[t[p].entries[k] as int].entries.len() == 0
            && !t[t[p].entries[k] as int].loop_found
}

/// The first child of the directory on top that the walk has not come to.
pub open spec fn top_from(stack: Seq<Frame>, phase: WalkPhase) -> int {
    if phase == WalkPhase::ClosingForChild {
        stack.last().next - 1
    } else {
        stack.last().next as int
    }
}

/// Whether every entry marked as a loop has no children.
#[verifier::opaque]
pub open spec fn loops_childless(t: Seq<EntryView>) -> bool {
    forall|i: int| 0 <= i < t.len() && (#[trigger] t[i]).loop_found ==> t[i].entries.len() == 0
}

/// Whether `above` walks the child of `below` that `below` came to last.
pub open spec fn child_came_to(t: Seq<EntryView>, below: Frame, above: Frame) -> bool {
    below.next >= 1 && above.node == t[below.node as int].entries[below.next - 1]
}

/// Whether the directories being walked are the first entry and, above
/// each, the child of the one below that the walk came to last.
#[verifier::opaque]
pub open spec fn frames_chained(t: Seq<EntryView>, stack: Seq<Frame>) -> bool {
    &&& stack.len() > 0 ==> stack[0].node == 0
    &&& forall|a: int, b: int|
        #![trigger stack[a], stack[b]]
        0 <= a && b == a + 1 && b < stack.len() ==> child_came_to(t, stack[a], stack[b])
}

/// Whether no directory being walked is marked as a loop.
#[verifier::opaque]
pub open spec fn frames_unmarked(t: Seq<EntryView>, stack: Seq<Frame>) -> bool {
    forall|j: int| 0 <= j < stack.len() ==> !t[(#[trigger] stack[j]).node as int].loop_found
}

/// Whether the children that the walk has not come to yet, in every
/// directory being walked, are as read; the directory on top has no
/// children yet when it was not read.
#[verifier::opaque]
pub open spec fn rest_untouched(t: Seq<EntryView>, stack: Seq<Frame>, phase: WalkPhase) -> bool {
    &&& forall|j: int|
        0 <= j < stack.len() - 1 ==> untouched_from(
            t,
            (#[trigger] stack[j]).node as int,
            stack[j].next as int,
        )
    &&& stack.len() > 0 ==> (if !stack.last().listed {
        t[stack.last().node as int].entries.len() == 0
    } else {
        untouched_from(t, stack.last().node as int, top_from(stack, phase))
    })
}

/// The shape of a walk: an entry marked as a loop has no children; the
/// directories being walked are the first entry and, above each, the child
/// of the one below that the walk came to last; none of them is marked as a
/// loop; and the children that the walk has not come to yet are as read.
pub open spec fn walk_shape(t: Seq<EntryView>, stack: Seq<Frame>, phase: WalkPhase) -> bool {
    &&& loops_childless(t)
    &&& frames_chained(t, stack)
    &&& frames_unmarked(t, stack)
    &&& rest_untouched(t, stack, phase)
}

/// The tree facts that the shape lemmas use, kept out of sight until
/// asked for.
#[verifier::opaque]
spec fn tree_known(t: Seq<EntryView>) -> bool {
    is_tree(t)
}

proof fn lemma_child(t: Seq<EntryView>, i: int, k: int)
    requires
        tree_known(t),
        0 <= i < t.len(),
        0 <= k < t[i].entries.len(),
    ensures
        i < t[i].entries[k] < t.len(),
        t[t[i].entries[k] as int].parent == Some(i as usize),
{
    reveal(tree_known);
}

proof fn lemma_children_differ(t: Seq<EntryView>, i: int, k1: int, k2: int)
    requires
        tree_known(t),
        0 <= i < t.len(),
        0 <= k1 < t[i].entries.len(),
        0 <= k2 < t[i].entries.len(),
        k1 != k2,
    ensures
        t[i].entries[k1] != t[i].entries[k2],
{
    reveal(tree_known);
}

proof fn lemma_frames_increase(t: Seq<EntryView>, stack: Seq<Frame>, j1: int, j2: int)
    requires
        tree_known(t),
        frames_in_tree(t, stack),
        frames_chained(t, stack),
        0 <= j1 < j2 < stack.len(),
    ensures
        stack[j1].node < stack[j2].node,
    decreases j2 - j1,
{
    reveal(frames_chained);
    let p = stack[j2 - 1].node as int;
    assert(child_came_to(t, stack[j2 - 1], stack[j2]));
    lemma_child(t, p, stack[j2 - 1].next - 1);
    if j1 < j2 - 1 {
        lemma_frames_increase(t, stack, j1, j2 - 1);
    }
}

proof fn lemma_untouched_same(t: Seq<EntryView>, t2: Seq<EntryView>, p: int, from: int)
    requires
        tree_known(t),
        0 <= p < t.len(),
        untouched_from(t, p, from),
        t2.len() == t.len(),
        forall|i: int|
            0 <= i < t.len() ==> (#[trigger] t2[i]).entries == t[i].entries && t2[i].loop_found
                == t[i].loop_found,
    ensures
        untouched_from(t2, p, from),
{
    assert forall|k: int| #![trigger t2[p].entries[k]] 0 <= k && from <= k < t2[p].entries.len() implies
        t2[t2[p].entries[k] as int].entries.len() == 0 && !t2[t2[p].entries[k] as int].loop_found by {
        assert(t2[p].entries == t[p].entries);
        lemma_child(t, p, k);
        let c = t[p].entries[k] as int;
        assert(t2[c].entries == t[c].entries);
    }
}

/// Whether `t2` has the same entries as `t`, children and loop marks alike.
spec fn same_links(t: Seq<EntryView>, t2: Seq<EntryView>) -> bool {
    &&& t2.len() == t.len()
    &&& forall|i: int|
        0 <= i < t.len() ==> (#[trigger] t2[i]).entries == t[i].entries && t2[i].loop_found
            == t[i].loop_found
}

proof fn lemma_relabel_untouched(t: Seq<EntryView>, t2: Seq<EntryView>, stack: Seq<Frame>, phase: WalkPhase)
    requires
        tree_known(t),
        frames_in_tree(t, stack),
        rest_untouched(t, stack, phase),
        same_links(t, t2),
    ensures
        rest_untouched(t2, stack, phase),
{
    reveal(rest_untouched);
    assert forall|j: int| 0 <= j < stack.len() - 1 implies untouched_from(
        t2,
        (#[trigger] stack[j]).node as int,
        stack[j].next as int,
    ) by {
        lemma_untouched_same(t, t2, stack[j].node as int, stack[j].next as int);
    }
    if stack.len() > 0 {
        let top = stack.last();
        assert(stack[stack.len() - 1] == top);
        assert(t2[top.node as int].entries == t[top.node as int].entries);
        if top.listed {
            lemma_untouched_same(t, t2, top.node as int, top_from(stack, phase));
        }
    }
}

proof fn lemma_shape_relabel(t: Seq<EntryView>, t2: Seq<EntryView>, stack: Seq<Frame>, phase: WalkPhase)
    requires
        tree_known(t),
        frames_in_tree(t, stack),
        walk_shape(t, stack, phase),
        same_links(t, t2),
    ensures
        walk_shape(t2, stack, phase),
{
    lemma_relabel_untouched(t, t2, stack, phase);
    assert(frames_chained(t2, stack)) by {
        reveal(frames_chained);
        assert forall|a: int, b: int|
            #![trigger stack[a], stack[b]]
            0 <= a && b == a + 1 && b < stack.len() implies child_came_to(t2, stack[a], stack[b]) by {
            assert(child_came_to(t, stack[a], stack[b]));
            assert(stack[a].node < t.len());
            assert(t2[stack[a].node as int].entries == t[stack[a].node as int].entries);
        }
    }
    assert(frames_unmarked(t2, stack)) by {
        reveal(frames_unmarked);
        assert forall|j: int| 0 <= j < stack.len() implies !t2[(
        #[trigger] stack[j]).node as int].loop_found by {
            assert(t2[stack[j].node as int].loop_found == t[stack[j].node as int].loop_found);
        }
    }
    assert(loops_childless(t2)) by {
        reveal(loops_childless);
        assert forall|i: int| 0 <= i < t2.len() && (#[trigger] t2[i]).loop_found implies t2[i].entries.len()
            == 0 by {
            assert(t[i].loop_found);
        }
    }
}

proof fn lemma_pop_shape(t: Seq<EntryView>, stack: Seq<Frame>)
    requires
        tree_known(t),
        frames_in_tree(t, stack),
        lower_settled(stack),
        stack.len() > 0,
        walk_shape(t, stack, WalkPhase::Opening),
    ensures
        frames_in_tree(t, stack.drop_last()),
        lower_settled(stack.drop_last()),
        stack.len() > 1 ==> stack.drop_last().last().listed,
        walk_shape(t, stack.drop_last(), WalkPhase::Opening),
{
    let st = stack.drop_last();
    assert forall|j: int| 0 <= j < st.len() implies #[trigger] st[j] == stack[j] by {}
    assert(frames_chained(t, st)) by {
        reveal(frames_chained);
        assert forall|a: int, b: int|
            #![trigger st[a], st[b]]
            0 <= a && b == a + 1 && b < st.len() implies child_came_to(t, st[a], st[b]) by {
            assert(st[a] == stack[a] && st[b] == stack[b]);
        }
    }
    assert(rest_untouched(t, st, WalkPhase::Opening)) by {
        reveal(rest_untouched);
        assert forall|j: int| 0 <= j < st.len() - 1 implies untouched_from(
            t,
            (#[trigger] st[j]).node as int,
            st[j].next as int,
        ) by {
            assert(st[j] == stack[j]);
        }
        if st.len() > 0 {
            assert(st.last() == stack[st.len() - 1]);
            assert(st.last().listed);
        }
    }
    assert(frames_unmarked(t, st)) by {
        reveal(frames_unmarked);
        assert forall|j: int| 0 <= j < st.len() implies !t[(#[trigger] st[j]).node as int].loop_found by {
            assert(st[j] == stack[j]);
        }
    }
    assert forall|j: int| 0 <= j < st.len() - 1 implies (#[trigger] st[j]).listed && !st[j].fd_open by {
        assert(st[j] == stack[j]);
    }
}

proof fn lemma_advance_shape(t: Seq<EntryView>, stack: Seq<Frame>)
    requires
        tree_known(t),
        frames_in_tree(t, stack),
        lower_settled(stack),
        stack.len() > 0 ==> stack.last().listed,
        walk_shape(t, stack, WalkPhase::Opening),
    ensures
        walk_shape(t, advance(t, stack).0, advance(t, stack).1),
    decreases stack.len(),
{
    if stack.len() > 0 {
        let f = stack.last();
        if f.next >= t[f.node as int].entries.len() && !f.fd_open {
            lemma_pop_shape(t, stack);
            lemma_advance_shape(t, stack.drop_last());
        } else {
            let phase = advance(t, stack).1;
            assert(advance(t, stack).0 == stack);
            assert(phase != WalkPhase::ClosingForChild);
            assert(rest_untouched(t, stack, phase)) by {
                reveal(rest_untouched);
            }
        }
    } else {
        assert(rest_untouched(t, stack, WalkPhase::Done)) by {
            reveal(rest_untouched);
        }
    }
}

proof fn lemma_untouched_weaker(t: Seq<EntryView>, p: int, from: int, from2: int)
    requires
        untouched_from(t, p, from),
        from <= from2,
    ensures
        untouched_from(t, p, from2),
{
}

proof fn lemma_shape_retop(
    t: Seq<EntryView>,
    stack: Seq<Frame>,
    phase: WalkPhase,
    f2: Frame,
    phase2: WalkPhase,
)
    requires
        walk_shape(t, stack, phase),
        stack.len() > 0,
        f2.node == stack.last().node,
        f2.listed == stack.last().listed,
        stack.last().listed ==> top_from(with_top(stack, f2), phase2) >= top_from(stack, phase),
    ensures
        walk_shape(t, with_top(stack, f2), phase2),
{
    let st = with_top(stack, f2);
    let n = stack.len();
    assert(frames_chained(t, st)) by {
        reveal(frames_chained);
        assert forall|a: int, b: int|
            #![trigger st[a], st[b]]
            0 <= a && b == a + 1 && b < st.len() implies child_came_to(t, st[a], st[b]) by {
            assert(child_came_to(t, stack[a], stack[b]));
            assert(st[a] == stack[a]);
            assert(st[b].node == stack[b].node);
        }
        if n > 0 {
            assert(st[0].node == stack[0].node);
        }
    }
    assert(frames_unmarked(t, st)) by {
        reveal(frames_unmarked);
        assert forall|j: int| 0 <= j < st.len() implies !t[(#[trigger] st[j]).node as int].loop_found by {
            assert(st[j].node == stack[j].node);
        }
    }
    assert(rest_untouched(t, st, phase2)) by {
        reveal(rest_untouched);
        assert forall|j: int| 0 <= j < st.len() - 1 implies untouched_from(
            t,
            (#[trigger] st[j]).node as int,
            st[j].next as int,
        ) by {
            assert(st[j] == stack[j]);
        }
        assert(st.last() == f2);
        assert(stack[n - 1] == stack.last());
        if f2.listed {
            lemma_untouched_weaker(
                t,
                f2.node as int,
                top_from(stack, phase),
                top_from(st, phase2),
            );
        }
    }
}

proof fn lemma_shape_listing(t: Seq<EntryView>, stack: Seq<Frame>, names: Seq<String>)
    requires
        tree_known(t),
        frames_in_tree(t, stack),
        stack.len() > 0,
        !stack.last().listed,
        walk_shape(t, stack, WalkPhase::AwaitListing),
        t.len() + names.len() < usize::MAX,
    ensures
        walk_shape(
            with_listing(t, stack.last().node as int, names),
            with_top(stack, Frame { fd_open: false, listed: true, ..stack.last() }),
            WalkPhase::Opening,
        ),
{
    let f = stack.last();
    let p = f.node as int;
    let n = stack.len();
    let t2 = with_listing(t, p, names);
    let st = with_top(stack, Frame { fd_open: false, listed: true, ..f });
    assert(is_tree(t)) by {
        reveal(tree_known);
    }
    lemma_listing_children(t, p, names);
    assert(stack[n - 1] == f);
    assert forall|j: int| 0 <= j < n - 1 implies (#[trigger] stack[j]).node < p by {
        lemma_frames_increase(t, stack, j, n - 1);
    }
    assert(rest_untouched(t, stack, WalkPhase::AwaitListing));
    assert(t[p].entries.len() == 0) by {
        reveal(rest_untouched);
    }
    assert(loops_childless(t2)) by {
        reveal(loops_childless);
        reveal(frames_unmarked);
        assert(!t[stack[n - 1].node as int].loop_found);
        assert forall|i: int| 0 <= i < t2.len() && (#[trigger] t2[i]).loop_found implies t2[i].entries.len()
            == 0 by {
            if i < t.len() && i != p {
                assert(t2[i] == t[i]);
            }
        }
    }
    assert(frames_chained(t2, st)) by {
        reveal(frames_chained);
        assert forall|a: int, b: int|
            #![trigger st[a], st[b]]
            0 <= a && b == a + 1 && b < st.len() implies child_came_to(t2, st[a], st[b]) by {
            assert(child_came_to(t, stack[a], stack[b]));
            assert(st[a] == stack[a]);
            assert(st[b].node == stack[b].node);
            assert(stack[a].node < p);
            assert(t2[stack[a].node as int] == t[stack[a].node as int]);
        }
        assert(st[0].node == stack[0].node);
    }
    assert(frames_unmarked(t2, st)) by {
        reveal(frames_unmarked);
        assert forall|j: int| 0 <= j < st.len() implies !t2[(#[trigger] st[j]).node as int].loop_found by {
            assert(st[j].node == stack[j].node);
            assert(!t[stack[j].node as int].loop_found);
        }
    }
    assert(rest_untouched(t2, st, WalkPhase::Opening)) by {
        reveal(rest_untouched);
        assert forall|j: int| 0 <= j < st.len() - 1 implies untouched_from(
            t2,
            (#[trigger] st[j]).node as int,
            st[j].next as int,
        ) by {
            let q = stack[j].node as int;
            assert(st[j] == stack[j]);
            assert(untouched_from(t, q, stack[j].next as int));
            assert(q < p);
            assert(t2[q] == t[q]);
            assert forall|k: int|
                #![trigger t2[q].entries[k]]
                0 <= k && stack[j].next <= k < t2[q].entries.len() implies t2[t2[q].entries[k] as int].entries.len()
                    == 0 && !t2[t2[q].entries[k] as int].loop_found by {
                let c = t[q].entries[k] as int;
                lemma_child(t, q, k);
                if c == p {
                    if j == n - 2 {
                        assert(child_came_to(t, stack[n - 2], stack[n - 1])) by {
                            reveal(frames_chained);
                        }
                        lemma_children_differ(t, q, k, stack[j].next - 1);
                    } else {
                        assert(child_came_to(t, stack[n - 2], stack[n - 1])) by {
                            reveal(frames_chained);
                        }
                        lemma_child(t, stack[n - 2].node as int, stack[n - 2].next - 1);
                        lemma_frames_increase(t, stack, j, n - 2);
                    }
                }
                assert(t2[c] == t[c]);
            }
        }
        assert(st.last() == Frame { fd_open: false, listed: true, ..f });
        assert forall|k: int|
            #![trigger t2[p].entries[k]]
            0 <= k && 0 <= k < t2[p].entries.len() implies t2[t2[p].entries[k] as int].entries.len()
                == 0 && !t2[t2[p].entries[k] as int].loop_found by {
            assert(t2[p].entries[k] >= t.len());
            assert(t2[p].entries[k] < t2.len()) by {
                reveal(tree_known);
                assert(is_tree(t2));
            }
        }
    }
}

proof fn lemma_shape_enter(t: Seq<EntryView>, stack: Seq<Frame>)
    requires
        tree_known(t),
        frames_in_tree(t, stack),
        stack.len() > 0,
        stack.last().listed,
        stack.last().next >= 1,
        stack.last().next <= t[stack.last().node as int].entries.len(),
        walk_shape(t, stack, WalkPhase::ClosingForChild),
    ensures
        ({
            let f = stack.last();
            let st = with_top(stack, Frame { fd_open: false, ..f });
            let c = t[f.node as int].entries[f.next - 1];
            let s2 = enter(t, st, c);
            &&& repeats_ancestor(t, c as int) ==> walk_shape(s2.tree, st, WalkPhase::Opening)
            &&& !repeats_ancestor(t, c as int) ==> walk_shape(s2.tree, s2.stack, s2.phase)
        }),
{
    let f = stack.last();
    let n = stack.len();
    let p = f.node as int;
    let st = with_top(stack, Frame { fd_open: false, ..f });
    let c = t[p].entries[f.next - 1];
    assert(stack[n - 1] == f);
    lemma_child(t, p, f.next - 1);
    assert(untouched_from(t, p, f.next - 1)) by {
        reveal(rest_untouched);
    }
    assert(t[c as int].entries.len() == 0 && !t[c as int].loop_found);
    assert forall|j: int| 0 <= j < n implies (#[trigger] stack[j]).node <= p by {
        if j < n - 1 {
            lemma_frames_increase(t, stack, j, n - 1);
        }
    }
    lemma_shape_retop(t, stack, WalkPhase::ClosingForChild, Frame { fd_open: false, ..f }, WalkPhase::ClosingForChild);
    assert(st.last() == Frame { fd_open: false, ..f });
    if repeats_ancestor(t, c as int) {
        let t2 = t.update(c as int, EntryView { loop_found: true, ..t[c as int] });
        assert(loops_childless(t2)) by {
            reveal(loops_childless);
            assert forall|i: int| 0 <= i < t2.len() && (#[trigger] t2[i]).loop_found implies t2[i].entries.len()
                == 0 by {
                if i != c {
                    assert(t2[i] == t[i]);
                }
            }
        }
        assert(frames_chained(t2, st)) by {
            reveal(frames_chained);
            assert forall|a: int, b: int|
                #![trigger st[a], st[b]]
                0 <= a && b == a + 1 && b < st.len() implies child_came_to(t2, st[a], st[b]) by {
                assert(child_came_to(t, st[a], st[b]));
                assert(st[a].node == stack[a].node);
                assert(t2[st[a].node as int].entries == t[st[a].node as int].entries);
            }
        }
        assert(frames_unmarked(t2, st)) by {
            reveal(frames_unmarked);
            assert forall|j: int| 0 <= j < st.len() implies !t2[(#[trigger] st[j]).node as int].loop_found by {
                assert(st[j].node == stack[j].node);
                assert(!t[st[j].node as int].loop_found);
                assert(st[j].node != c);
            }
        }
        assert(rest_untouched(t2, st, WalkPhase::Opening)) by {
            reveal(rest_untouched);
            assert forall|j: int| 0 <= j < st.len() - 1 implies untouched_from(
                t2,
                (#[trigger] st[j]).node as int,
                st[j].next as int,
            ) by {
                let q = st[j].node as int;
                assert(untouched_from(t, q, st[j].next as int));
                assert(q < p) by {
                    lemma_frames_increase(t, stack, j, n - 1);
                }
                assert forall|k: int|
                    #![trigger t2[q].entries[k]]
                    0 <= k && st[j].next <= k < t2[q].entries.len() implies t2[t2[q].entries[k] as int].entries.len()
                        == 0 && !t2[t2[q].entries[k] as int].loop_found by {
                    lemma_child(t, q, k);
                    assert(t[q].entries[k] != c);
                }
            }
            assert forall|k: int|
                #![trigger t2[p].entries[k]]
                0 <= k && f.next <= k < t2[p].entries.len() implies t2[t2[p].entries[k] as int].entries.len()
                    == 0 && !t2[t2[p].entries[k] as int].loop_found by {
                lemma_children_differ(t, p, k, f.next - 1);
                lemma_child(t, p, k);
                assert(t[p].entries[k] != c);
                assert(t2[p] == t[p]);
                let d = t[p].entries[k] as int;
                assert(t[d].entries.len() == 0 && !t[d].loop_found);
                assert(t2[d] == t[d]);
            }
        }
    } else {
        let st2 = st.push(Frame { node: c, next: 0, fd_open: false, listed: false });
        assert(frames_chained(t, st2)) by {
            reveal(frames_chained);
            assert forall|a: int, b: int|
                #![trigger st2[a], st2[b]]
                0 <= a && b == a + 1 && b < st2.len() implies child_came_to(t, st2[a], st2[b]) by {
                if b < st.len() {
                    assert(st2[a] == st[a] && st2[b] == st[b]);
                    assert(child_came_to(t, st[a], st[b]));
                } else {
                    assert(st2[a] == st.last());
                }
            }
            assert(st2[0].node == 0);
        }
        assert(frames_unmarked(t, st2)) by {
            reveal(frames_unmarked);
            assert forall|j: int| 0 <= j < st2.len() implies !t[(#[trigger] st2[j]).node as int].loop_found by {
                if j < st.len() {
                    assert(st2[j] == st[j]);
                }
            }
        }
        assert(rest_untouched(t, st2, WalkPhase::Opening)) by {
            reveal(rest_untouched);
            assert forall|j: int| 0 <= j < st2.len() - 1 implies untouched_from(
                t,
                (#[trigger] st2[j]).node as int,
                st2[j].next as int,
            ) by {
                assert(st2[j] == st[j]);
                if j == st.len() - 1 {
                    assert(untouched_from(t, p, f.next - 1));
                }
            }
        }
        assert(loops_childless(t));
    }
}

/// Every step of a walk keeps its shape: an entry marked as a loop never
/// gets children (the walk does not go into it); the directories being
/// walked are the first entry and, above each, a child of the one below;
/// none of them is marked as a loop; and the children that the walk has not
/// come to yet are as read.
pub proof fn lemma_next_keeps_shape(s: WalkState, e: WalkEvent)
    requires
        walk_invariant(s),
        walk_shape(s.tree, s.stack, s.phase),
    ensures
        walk_shape(next(s, e).0.tree, next(s, e).0.stack, next(s, e).0.phase),
{
    let t = s.tree;
    let f = s.stack.last();
    let node = t[f.node as int];
    assert(tree_known(t)) by {
        reveal(tree_known);
    }
    let n = s.stack.len();
    if n > 0 {
        assert(s.stack[n - 1] == f);
    }
    match e {
        WalkEvent::Opened => {
            if s.phase == WalkPhase::Opening {
                let f2 = Frame { fd_open: true, ..f };
                let ph = next(s, e).0.phase;
                lemma_shape_retop(t, s.stack, s.phase, f2, ph);
            }
        },
        WalkEvent::Identity { dev, ino } => {
            if s.phase == WalkPhase::AwaitIdentity {
                let t2 = t.update(f.node as int, EntryView { dev, ino, ..node });
                lemma_shape_relabel(t, t2, s.stack, s.phase);
                lemma_shape_retop(t2, s.stack, s.phase, f, WalkPhase::AwaitListing);
                assert(with_top(s.stack, f) == s.stack);
            }
        },
        WalkEvent::Listing(names) => {
            if s.phase == WalkPhase::AwaitListing && names@.len() < usize::MAX - t.len() {
                let p = f.node as int;
                let t2 = with_listing(t, p, names@);
                let st = with_top(s.stack, Frame { fd_open: false, listed: true, ..f });
                lemma_shape_listing(t, s.stack, names@);
                lemma_listing_children(t, p, names@);
                lemma_listing_frames(t, p, names@, s.stack);
                assert(frames_in_tree(t2, st)) by {
                    assert forall|j: int| 0 <= j < st.len() implies (#[trigger] st[j]).node < t2.len()
                        && st[j].next <= t2[st[j].node as int].entries.len() by {
                        assert(st[j].node == s.stack[j].node && st[j].next == s.stack[j].next);
                    }
                }
                assert(tree_known(t2)) by {
                    reveal(tree_known);
                }
                assert forall|j: int| 0 <= j < st.len() - 1 implies (#[trigger] st[j]).listed
                    && !st[j].fd_open by {
                    assert(st[j] == s.stack[j]);
                }
                lemma_advance_shape(t2, st);
            } else if s.phase == WalkPhase::AwaitListing {
                lemma_shape_retop(t, s.stack, s.phase, f, WalkPhase::Failed);
                assert(with_top(s.stack, f) == s.stack);
            }
        },
        WalkEvent::Status { mode, dev, ino } => {
            if s.phase == WalkPhase::AwaitStatus || s.phase == WalkPhase::AwaitLinkStatus {
                let c = node.entries[f.next as int];
                let t2 = t.update(c as int, EntryView { dev, ino, ..t[c as int] });
                let f2 = Frame { next: (f.next + 1) as usize, ..f };
                let stack2 = with_top(s.stack, f2);
                if s.phase == WalkPhase::AwaitStatus && is_dir_mode(mode) && node.options.follow_slink {
                    lemma_shape_retop(t, s.stack, s.phase, f, WalkPhase::AwaitLinkStatus);
                    assert(with_top(s.stack, f) == s.stack);
                } else {
                    lemma_child(t, f.node as int, f.next as int);
                    lemma_shape_relabel(t, t2, s.stack, s.phase);
                    if s.phase == WalkPhase::AwaitLinkStatus || is_dir_mode(mode) {
                        lemma_shape_retop(t2, s.stack, s.phase, f2, WalkPhase::ClosingForChild);
                    } else {
                        lemma_shape_retop(t2, s.stack, s.phase, f2, WalkPhase::Opening);
                        lemma_relabel_keeps(t, s.stack, c as int, EntryView { dev, ino, ..t[c as int] });
                        assert(frames_in_tree(t2, stack2)) by {
                            assert forall|j: int| 0 <= j < stack2.len() implies (
                            #[trigger] stack2[j]).node < t2.len() && stack2[j].next <= t2[stack2[j].node as int].entries.len() by {
                                if j < stack2.len() - 1 {
                                    assert(stack2[j] == s.stack[j]);
                                }
                            }
                        }
                        assert(tree_known(t2)) by {
                            reveal(tree_known);
                        }
                        assert forall|j: int| 0 <= j < stack2.len() - 1 implies (#[trigger] stack2[j]).listed
                            && !stack2[j].fd_open by {
                            assert(stack2[j] == s.stack[j]);
                        }
                        lemma_advance_shape(t2, stack2);
                    }
                }
            }
        },
        WalkEvent::StatusFailed { errno } => {
            if s.phase == WalkPhase::AwaitStatus && (errno == enoent_value() || errno == eloop_value()) {
                let f2 = Frame { next: (f.next + 1) as usize, ..f };
                let stack2 = with_top(s.stack, f2);
                lemma_shape_retop(t, s.stack, s.phase, f2, WalkPhase::Opening);
                assert(frames_in_tree(t, stack2)) by {
                    assert forall|j: int| 0 <= j < stack2.len() implies (#[trigger] stack2[j]).node
                        < t.len() && stack2[j].next <= t[stack2[j].node as int].entries.len() by {
                        if j < stack2.len() - 1 {
                            assert(stack2[j] == s.stack[j]);
                        }
                    }
                }
                assert forall|j: int| 0 <= j < stack2.len() - 1 implies (#[trigger] stack2[j]).listed
                    && !stack2[j].fd_open by {
                    assert(stack2[j] == s.stack[j]);
                }
                lemma_advance_shape(t, stack2);
            } else if s.phase == WalkPhase::AwaitStatus || s.phase == WalkPhase::AwaitLinkStatus {
                lemma_shape_retop(t, s.stack, s.phase, f, WalkPhase::Failed);
                assert(with_top(s.stack, f) == s.stack);
            }
        },
        WalkEvent::Closed => {
            let f2 = Frame { fd_open: false, ..f };
            let st = with_top(s.stack, f2);
            if s.phase == WalkPhase::ClosingForChild {
                lemma_shape_enter(t, s.stack);
                let c = node.entries[f.next - 1];
                if repeats_ancestor(t, c as int) {
                    let t2 = t.update(c as int, EntryView { loop_found: true, ..t[c as int] });
                    lemma_child(t, f.node as int, f.next - 1);
                    lemma_relabel_keeps(t, s.stack, c as int, EntryView { loop_found: true, ..t[c as int] });
                    assert(frames_in_tree(t2, st)) by {
                        assert forall|j: int| 0 <= j < st.len() implies (#[trigger] st[j]).node < t2.len()
                            && st[j].next <= t2[st[j].node as int].entries.len() by {
                            assert(st[j].node == s.stack[j].node && st[j].next == s.stack[j].next);
                        }
                    }
                    assert(tree_known(t2)) by {
                        reveal(tree_known);
                    }
                    assert forall|j: int| 0 <= j < st.len() - 1 implies (#[trigger] st[j]).listed
                        && !st[j].fd_open by {
                        assert(st[j] == s.stack[j]);
                    }
                    lemma_advance_shape(t2, st);
                }
            } else if s.phase == WalkPhase::ClosingAtEnd {
                lemma_shape_retop(t, s.stack, s.phase, f2, WalkPhase::Opening);
                assert(frames_in_tree(t, st)) by {
                    assert forall|j: int| 0 <= j < st.len() implies (#[trigger] st[j]).node < t.len()
                        && st[j].next <= t[st[j].node as int].entries.len() by {
                        assert(st[j].node == s.stack[j].node && st[j].next == s.stack[j].next);
                    }
                }
                assert forall|j: int| 0 <= j < st.len() - 1 implies (#[trigger] st[j]).listed
                    && !st[j].fd_open by {
                    assert(st[j] == s.stack[j]);
                }
                lemma_advance_shape(t, st);
            }
        },
    }
}

/// In a walk of that shape, an entry found to repeat one of its ancestors
/// has no children: the walk did not go into it.
pub proof fn lemma_loop_entry_childless(s: WalkState, i: int)
    requires
        walk_shape(s.tree, s.stack, s.phase),
        0 <= i < s.tree.len(),
        s.tree[i].loop_found,
    ensures
        s.tree[i].entries.len() == 0,
{
    reveal(loops_childless);
}

/// Whether every entry has the options `options`, none carries a cycle
/// mark, and no entry but the first is named `.` or `..`.
pub open spec fn tree_clean(t: Seq<EntryView>, options: Options) -> bool {
    forall|i: int|
        0 <= i < t.len() ==> (#[trigger] t[i]).options == options && !t[i].cycle && (i > 0
            ==> !is_dot_entry(t[i].name))
}

proof fn lemma_listing_clean(t: Seq<EntryView>, p: int, names: Seq<String>, options: Options)
    requires
        tree_clean(t, options),
        0 <= p < t.len(),
    ensures
        tree_clean(with_listing(t, p, names), options),
        with_listing(t, p, names).len() >= t.len(),
    decreases names.len(),
{
    if names.len() > 0 {
        let rest = names.drop_last();
        lemma_listing_clean(t, p, rest, options);
        let w = with_listing(t, p, rest);
        if !is_dot_entry(names.last()@) {
            let w2 = with_child(w, p, names.last()@);
            assert forall|i: int| 0 <= i < w2.len() implies (#[trigger] w2[i]).options == options
                && !w2[i].cycle && (i > 0 ==> !is_dot_entry(w2[i].name)) by {
                if i < w.len() {
                    assert(w[i].options == options);
                }
            }
        }
    }
}

/// The walk keeps its tree clean: every entry keeps the options the walk
/// started with, no cycle mark is ever set, and no entry below the first
/// is named `.` or `..`; so the finished tree is clean too.
pub proof fn lemma_next_keeps_clean(s: WalkState, e: WalkEvent, options: Options)
    requires
        walk_invariant(s),
        tree_clean(s.tree, options),
    ensures
        tree_clean(next(s, e).0.tree, options),
{
    let t = s.tree;
    let f = s.stack.last();
    let t2 = next(s, e).0.tree;
    match e {
        WalkEvent::Listing(names) => {
            if s.phase == WalkPhase::AwaitListing && names@.len() < usize::MAX - t.len() {
                lemma_listing_clean(t, f.node as int, names@, options);
                assert(t2 == with_listing(t, f.node as int, names@));
            }
        },
        _ => {
            assert forall|i: int| 0 <= i < t2.len() implies (#[trigger] t2[i]).options == options
                && !t2[i].cycle && (i > 0 ==> !is_dot_entry(t2[i].name)) by {
                assert(t2.len() == t.len());
                assert(t[i].options == options);
            }
        },
    }
}

/// A walk starts with a clean tree.
pub proof fn lemma_initial_clean(name: Seq<char>, options: Options)
    ensures
        tree_clean(initial_state(name, options).tree, options),
{
    let t = seq![fresh_entry(name, options, None)];
    assert(path_to(t, 0) == seq![0usize]);
    assert(!repeats_ancestor(t, 0));
}

/// Whether every entry but the first is below an entry that has children.
pub open spec fn parents_have_children(t: Seq<EntryView>) -> bool {
    forall|i: int|
        0 < i < t.len() ==> ((#[trigger] t[i]).parent matches Some(p) ==> t[p as int].entries.len()
            > 0)
}

/// Whether identities decided the walk: an entry marked as a loop has the
/// identity of one of its ancestors, and an entry that has children has the
/// identity of none of them; so along any way down, the entries that were
/// walked into have pairwise different identities.
pub open spec fn identities_sound(t: Seq<EntryView>) -> bool {
    forall|i: int|
        0 <= i < t.len() ==> ((#[trigger] t[i]).loop_found ==> repeats_ancestor(t, i)) && (
        t[i].entries.len() > 0 ==> !repeats_ancestor(t, i))
}

/// Whether no directory being walked has the identity of one of its
/// ancestors.
pub open spec fn frames_fresh(t: Seq<EntryView>, stack: Seq<Frame>) -> bool {
    forall|j: int| 0 <= j < stack.len() ==> !repeats_ancestor(t, (#[trigger] stack[j]).node as int)
}

/// The identity part of a walk's state: parents have children, identities
/// decided the walk, and the directories being walked are fresh.
pub open spec fn walk_identities(t: Seq<EntryView>, stack: Seq<Frame>) -> bool {
    &&& parents_have_children(t)
    &&& identities_sound(t)
    &&& frames_fresh(t, stack)
}

proof fn lemma_path_same(t: Seq<EntryView>, t2: Seq<EntryView>, i: int)
    requires
        0 <= i < t.len() <= t2.len(),
        forall|j: int| 0 <= j < t.len() ==> (#[trigger] t2[j]).parent == t[j].parent,
    ensures
        path_to(t2, i) == path_to(t, i),
    decreases i,
{
    match t[i].parent {
        Some(p) => if 0 <= p < i {
            lemma_path_same(t, t2, p as int);
        },
        None => {},
    }
}

/// Whether `t2` keeps the parents and identities of the entries of `t`.
pub open spec fn keeps_old_links(t: Seq<EntryView>, t2: Seq<EntryView>) -> bool {
    &&& t.len() <= t2.len()
    &&& forall|j: int|
        0 <= j < t.len() ==> (#[trigger] t2[j]).parent == t[j].parent && t2[j].dev == t[j].dev
            && t2[j].ino == t[j].ino
}

proof fn lemma_repeats_same(t: Seq<EntryView>, t2: Seq<EntryView>, i: int)
    requires
        is_tree(t),
        keeps_old_links(t, t2),
        0 <= i < t.len(),
    ensures
        repeats_ancestor(t2, i) == repeats_ancestor(t, i),
{
    lemma_path_same(t, t2, i);
    lemma_path_in_tree(t, i);
    let pa = path_to(t, i);
    if repeats_ancestor(t, i) {
        let k = choose|k: int|
            0 <= k < pa.len() - 1 && t[#[trigger] pa[k] as int].dev == t[i].dev && t[pa[k] as int].ino
                == t[i].ino;
        assert(t2[pa[k] as int].dev == t2[i].dev);
    }
    if repeats_ancestor(t2, i) {
        let k = choose|k: int|
            0 <= k < pa.len() - 1 && t2[#[trigger] path_to(t2, i)[k] as int].dev == t2[i].dev
                && t2[path_to(t2, i)[k] as int].ino == t2[i].ino;
        assert(t[pa[k] as int].dev == t[i].dev);
    }
}

proof fn lemma_on_path_has_children(t: Seq<EntryView>, i: int, k: int)
    requires
        is_tree(t),
        parents_have_children(t),
        0 <= i < t.len(),
        0 <= k < path_to(t, i).len() - 1,
    ensures
        t[path_to(t, i)[k] as int].entries.len() > 0,
        path_to(t, i)[k] != i,
{
    lemma_path_in_tree(t, i);
    let pa = path_to(t, i);
    let c = pa[k + 1] as int;
    assert(t[c].parent == Some(pa[k]));
    assert(0 <= c < t.len());
    assert(c > 0);
    assert(t[c].parent matches Some(p) ==> t[p as int].entries.len() > 0);
    assert(pa[k] < i);
}

/// Relabelling an entry that has no children changes whether an entry
/// repeats an ancestor only for that entry itself.
proof fn lemma_relabel_leaf_repeats(t: Seq<EntryView>, x: int, e: EntryView, i: int)
    requires
        is_tree(t),
        parents_have_children(t),
        0 <= x < t.len(),
        t[x].entries.len() == 0,
        e.parent == t[x].parent,
        0 <= i < t.len(),
        i != x,
    ensures
        repeats_ancestor(t.update(x, e), i) == repeats_ancestor(t, i),
{
    let t2 = t.update(x, e);
    lemma_path_same(t, t2, i);
    lemma_path_in_tree(t, i);
    let pa = path_to(t, i);
    assert forall|k: int| 0 <= k < pa.len() implies #[trigger] pa[k] != x by {
        if k < pa.len() - 1 {
            lemma_on_path_has_children(t, i, k);
        } else {
            assert(pa[k] == i);
        }
    }
    if repeats_ancestor(t, i) {
        let k = choose|k: int|
            0 <= k < pa.len() - 1 && t[#[trigger] pa[k] as int].dev == t[i].dev && t[pa[k] as int].ino
                == t[i].ino;
        assert(pa[k] != x);
        assert(t2[pa[k] as int].dev == t2[i].dev);
    }
    if repeats_ancestor(t2, i) {
        let k = choose|k: int|
            0 <= k < pa.len() - 1 && t2[#[trigger] path_to(t2, i)[k] as int].dev == t2[i].dev
                && t2[path_to(t2, i)[k] as int].ino == t2[i].ino;
        assert(pa[k] != x);
        assert(t[pa[k] as int].dev == t[i].dev);
    }
}

proof fn lemma_advance_prefix(t: Seq<EntryView>, stack: Seq<Frame>)
    ensures
        advance(t, stack).0.len() <= stack.len(),
        forall|j: int| 0 <= j < advance(t, stack).0.len() ==> #[trigger] advance(t, stack).0[j] == stack[j],
    decreases stack.len(),
{
    if stack.len() > 0 {
        let f = stack.last();
        if f.next >= t[f.node as int].entries.len() && !f.fd_open {
            lemma_advance_prefix(t, stack.drop_last());
        }
    }
}

proof fn lemma_frames_fresh_sub(t: Seq<EntryView>, stack: Seq<Frame>, st2: Seq<Frame>)
    requires
        frames_fresh(t, stack),
        st2.len() <= stack.len(),
        forall|j: int| 0 <= j < st2.len() ==> (#[trigger] st2[j]).node == stack[j].node,
    ensures
        frames_fresh(t, st2),
{
    assert forall|j: int| 0 <= j < st2.len() implies !repeats_ancestor(t, (#[trigger] st2[j]).node as int) by {
        assert(st2[j].node == stack[j].node);
    }
}

proof fn lemma_relabel_leaf_identities(t: Seq<EntryView>, stack: Seq<Frame>, x: int, e: EntryView)
    requires
        is_tree(t),
        frames_in_tree(t, stack),
        walk_identities(t, stack),
        0 <= x < t.len(),
        t[x].entries.len() == 0,
        !t[x].loop_found,
        e.parent == t[x].parent,
        e.entries == t[x].entries,
        !e.loop_found,
        x == 0 || forall|j: int| 0 <= j < stack.len() ==> (#[trigger] stack[j]).node != x,
        x == 0 ==> t[x].parent is None,
    ensures
        walk_identities(t.update(x, e), stack),
{
    let t2 = t.update(x, e);
    assert forall|i: int| 0 <= i < t2.len() implies ((#[trigger] t2[i]).loop_found ==> repeats_ancestor(t2, i))
        && (t2[i].entries.len() > 0 ==> !repeats_ancestor(t2, i)) by {
        if i != x {
            lemma_relabel_leaf_repeats(t, x, e, i);
        }
    }
    assert forall|i: int| 0 < i < t2.len() implies ((#[trigger] t2[i]).parent matches Some(p) ==> t2[p as int].entries.len()
        > 0) by {
        assert(t[i].parent matches Some(p) ==> t[p as int].entries.len() > 0);
    }
    assert forall|j: int| 0 <= j < stack.len() implies !repeats_ancestor(t2, (#[trigger] stack[j]).node as int) by {
        let q = stack[j].node as int;
        if q != x {
            lemma_relabel_leaf_repeats(t, x, e, q);
        } else {
            assert(x == 0);
            assert(path_to(t2, 0) == seq![0usize]);
        }
    }
}

proof fn lemma_identities_prelude(s: WalkState)
    requires
        walk_invariant(s),
        walk_shape(s.tree, s.stack, s.phase),
    ensures
        tree_known(s.tree),
        s.stack.len() > 0 ==> s.stack[s.stack.len() - 1] == s.stack.last(),
        s.stack.len() > 0 ==> forall|j: int|
            0 <= j < s.stack.len() ==> (#[trigger] s.stack[j]).node <= s.stack.last().node,
{
    let t = s.tree;
    let n = s.stack.len();
    assert(tree_known(t)) by {
        reveal(tree_known);
    }
    if n > 0 {
        assert forall|j: int| 0 <= j < n implies (#[trigger] s.stack[j]).node <= s.stack.last().node by {
            if j < n - 1 {
                lemma_frames_increase(t, s.stack, j, n - 1);
            }
        }
    }
}

proof fn lemma_identities_opened(s: WalkState)
    requires
        walk_invariant(s),
        walk_shape(s.tree, s.stack, s.phase),
        walk_identities(s.tree, s.stack),
    ensures
        walk_identities(next(s, WalkEvent::Opened).0.tree, next(s, WalkEvent::Opened).0.stack),
{
    let e = WalkEvent::Opened;
    let t = s.tree;
    let f = s.stack.last();
    let n = s.stack.len();
    let node = t[f.node as int];
    let r = next(s, e).0;
    lemma_identities_prelude(s);
        if s.phase == WalkPhase::Opening {
            lemma_frames_fresh_sub(t, s.stack, r.stack);
        }
}

proof fn lemma_identities_identity(s: WalkState, dev: libc::dev_t, ino: libc::ino_t)
    requires
        walk_invariant(s),
        walk_shape(s.tree, s.stack, s.phase),
        walk_identities(s.tree, s.stack),
    ensures
        walk_identities(next(s, WalkEvent::Identity { dev, ino }).0.tree, next(s, WalkEvent::Identity { dev, ino }).0.stack),
{
    let e = WalkEvent::Identity { dev, ino };
    let t = s.tree;
    let f = s.stack.last();
    let n = s.stack.len();
    let node = t[f.node as int];
    let r = next(s, e).0;
    lemma_identities_prelude(s);
        if s.phase == WalkPhase::AwaitIdentity {
            assert(f.node == 0);
            assert(t[0].entries.len() == 0) by {
                reveal(rest_untouched);
            }
            assert(!t[0].loop_found) by {
                reveal(frames_unmarked);
            }
            lemma_relabel_leaf_identities(t, s.stack, 0, EntryView { dev, ino, ..node });
        }
}

proof fn lemma_identities_listing(s: WalkState, names: Vec<String>)
    requires
        walk_invariant(s),
        walk_shape(s.tree, s.stack, s.phase),
        walk_identities(s.tree, s.stack),
    ensures
        walk_identities(next(s, WalkEvent::Listing(names)).0.tree, next(s, WalkEvent::Listing(names)).0.stack),
{
    let e = WalkEvent::Listing(names);
    let t = s.tree;
    let f = s.stack.last();
    let n = s.stack.len();
    let node = t[f.node as int];
    let r = next(s, e).0;
    lemma_identities_prelude(s);
        if s.phase == WalkPhase::AwaitListing && names@.len() < usize::MAX - t.len() {
            let p = f.node as int;
            let t2 = with_listing(t, p, names@);
            let st = with_top(s.stack, Frame { fd_open: false, listed: true, ..f });
            lemma_listing_children(t, p, names@);
            assert(t[p].entries.len() == 0) by {
                reveal(rest_untouched);
            }
            assert(keeps_old_links(t, t2)) by {
                assert forall|j: int| 0 <= j < t.len() implies (#[trigger] t2[j]).parent == t[j].parent
                    && t2[j].dev == t[j].dev && t2[j].ino == t[j].ino by {
                    if j != p {
                        assert(t2[j] == t[j]);
                    }
                }
            }
            assert forall|i: int| 0 <= i < t2.len() implies ((#[trigger] t2[i]).loop_found
                ==> repeats_ancestor(t2, i)) && (t2[i].entries.len() > 0 ==> !repeats_ancestor(t2, i)) by {
                if i < t.len() {
                    lemma_repeats_same(t, t2, i);
                    if i != p {
                        assert(t2[i] == t[i]);
                    } else {
                        assert(!repeats_ancestor(t, p));
                    }
                }
            }
            assert forall|i: int| 0 < i < t2.len() implies ((#[trigger] t2[i]).parent matches Some(q)
                ==> t2[q as int].entries.len() > 0) by {
                if i < t.len() {
                    assert(t[i].parent matches Some(q) ==> t[q as int].entries.len() > 0);
                    if i != p {
                        assert(t2[i] == t[i]);
                    }
                    if let Some(q) = t[i].parent {
                        assert(0 <= q < i);
                        if q != p {
                            assert(t2[q as int] == t[q as int]);
                        }
                    }
                } else {
                    assert(t2[i].parent == Some(p as usize));
                }
            }
            assert forall|j: int| 0 <= j < st.len() implies !repeats_ancestor(t2, (#[trigger] st[j]).node as int) by {
                assert(st[j].node == s.stack[j].node);
                lemma_repeats_same(t, t2, st[j].node as int);
            }
            lemma_advance_prefix(t2, st);
            lemma_frames_fresh_sub(t2, st, r.stack);
        } else {
            lemma_frames_fresh_sub(t, s.stack, r.stack);
        }
}

proof fn lemma_identities_status(s: WalkState, mode: libc::mode_t, dev: libc::dev_t, ino: libc::ino_t)
    requires
        walk_invariant(s),
        walk_shape(s.tree, s.stack, s.phase),
        walk_identities(s.tree, s.stack),
    ensures
        walk_identities(next(s, WalkEvent::Status { mode, dev, ino }).0.tree, next(s, WalkEvent::Status { mode, dev, ino }).0.stack),
{
    let e = WalkEvent::Status { mode, dev, ino };
    let t = s.tree;
    let f = s.stack.last();
    let n = s.stack.len();
    let node = t[f.node as int];
    let r = next(s, e).0;
    lemma_identities_prelude(s);
        if s.phase == WalkPhase::AwaitStatus || s.phase == WalkPhase::AwaitLinkStatus {
            let c = node.entries[f.next as int];
            let t2 = t.update(c as int, EntryView { dev, ino, ..t[c as int] });
            let stack2 = with_top(s.stack, Frame { next: (f.next + 1) as usize, ..f });
            lemma_child(t, f.node as int, f.next as int);
            assert(untouched_from(t, f.node as int, f.next as int)) by {
                reveal(rest_untouched);
            }
            if s.phase == WalkPhase::AwaitStatus && is_dir_mode(mode) && node.options.follow_slink {
                lemma_frames_fresh_sub(t, s.stack, r.stack);
            } else {
                lemma_relabel_leaf_identities(t, s.stack, c as int, EntryView { dev, ino, ..t[c as int] });
                lemma_advance_prefix(t2, stack2);
                lemma_frames_fresh_sub(t2, s.stack, stack2);
                if !(s.phase == WalkPhase::AwaitLinkStatus || is_dir_mode(mode)) {
                    lemma_frames_fresh_sub(t2, stack2, r.stack);
                }
            }
        }
}

proof fn lemma_identities_status_failed(s: WalkState, errno: libc::c_int)
    requires
        walk_invariant(s),
        walk_shape(s.tree, s.stack, s.phase),
        walk_identities(s.tree, s.stack),
    ensures
        walk_identities(next(s, WalkEvent::StatusFailed { errno }).0.tree, next(s, WalkEvent::StatusFailed { errno }).0.stack),
{
    let e = WalkEvent::StatusFailed { errno };
    let t = s.tree;
    let f = s.stack.last();
    let n = s.stack.len();
    let node = t[f.node as int];
    let r = next(s, e).0;
    lemma_identities_prelude(s);
        if s.phase == WalkPhase::AwaitStatus && (errno == enoent_value() || errno == eloop_value()) {
            let stack2 = with_top(s.stack, Frame { next: (f.next + 1) as usize, ..f });
            lemma_frames_fresh_sub(t, s.stack, stack2);
            lemma_advance_prefix(t, stack2);
            lemma_frames_fresh_sub(t, stack2, r.stack);
        }
}

proof fn lemma_identities_closed(s: WalkState)
    requires
        walk_invariant(s),
        walk_shape(s.tree, s.stack, s.phase),
        walk_identities(s.tree, s.stack),
    ensures
        walk_identities(next(s, WalkEvent::Closed).0.tree, next(s, WalkEvent::Closed).0.stack),
{
    let e = WalkEvent::Closed;
    let t = s.tree;
    let f = s.stack.last();
    let n = s.stack.len();
    let node = t[f.node as int];
    let r = next(s, e).0;
    lemma_identities_prelude(s);
        let st = with_top(s.stack, Frame { fd_open: false, ..f });
        if s.phase == WalkPhase::ClosingForChild {
            let c = node.entries[f.next - 1];
            lemma_child(t, f.node as int, f.next - 1);
            assert(untouched_from(t, f.node as int, f.next - 1)) by {
                reveal(rest_untouched);
            }
            lemma_frames_fresh_sub(t, s.stack, st);
            if repeats_ancestor(t, c as int) {
                let t2 = t.update(c as int, EntryView { loop_found: true, ..t[c as int] });
                assert(keeps_old_links(t, t2));
                assert forall|i: int| 0 <= i < t2.len() implies ((#[trigger] t2[i]).loop_found
                    ==> repeats_ancestor(t2, i)) && (t2[i].entries.len() > 0 ==> !repeats_ancestor(t2, i)) by {
                    lemma_repeats_same(t, t2, i);
                }
                assert forall|i: int| 0 < i < t2.len() implies ((#[trigger] t2[i]).parent matches Some(q)
                    ==> t2[q as int].entries.len() > 0) by {
                    assert(t[i].parent matches Some(q) ==> t[q as int].entries.len() > 0);
                }
                assert forall|j: int| 0 <= j < st.len() implies !repeats_ancestor(t2, (#[trigger] st[j]).node as int) by {
                    assert(st[j].node == s.stack[j].node);
                    lemma_repeats_same(t, t2, st[j].node as int);
                }
                lemma_advance_prefix(t2, st);
                lemma_frames_fresh_sub(t2, st, r.stack);
            } else {
                let st2 = st.push(Frame { node: c, next: 0, fd_open: false, listed: false });
                assert forall|j: int| 0 <= j < st2.len() implies !repeats_ancestor(t, (#[trigger] st2[j]).node as int) by {
                    if j < st.len() {
                        assert(st2[j] == st[j]);
                    }
                }
            }
        } else if s.phase == WalkPhase::ClosingAtEnd {
            lemma_frames_fresh_sub(t, s.stack, st);
            lemma_advance_prefix(t, st);
            lemma_frames_fresh_sub(t, st, r.stack);
        }
}

/// Every step of a walk keeps its identities sound: an entry is marked as a
/// loop only when it has the identity of one of its ancestors, and an entry
/// is walked into (gets children) only when it has the identity of none of
/// them; so no identity repeats among the entries walked into along one
/// way down.
pub proof fn lemma_next_keeps_identities(s: WalkState, e: WalkEvent)
    requires
        walk_invariant(s),
        walk_shape(s.tree, s.stack, s.phase),
        walk_identities(s.tree, s.stack),
    ensures
        walk_identities(next(s, e).0.tree, next(s, e).0.stack),
{
    match e {
        WalkEvent::Opened => lemma_identities_opened(s),
        WalkEvent::Identity { dev, ino } => lemma_identities_identity(s, dev, ino),
        WalkEvent::Listing(names) => lemma_identities_listing(s, names),
        WalkEvent::Status { mode, dev, ino } => lemma_identities_status(s, mode, dev, ino),
        WalkEvent::StatusFailed { errno } => lemma_identities_status_failed(s, errno),
        WalkEvent::Closed => lemma_identities_closed(s),
    }
}

/// A walk starts with sound identities.
pub proof fn lemma_initial_identities(name: Seq<char>, options: Options)
    ensures
        walk_identities(initial_state(name, options).tree, initial_state(name, options).stack),
{
    let t = seq![fresh_entry(name, options, None)];
    assert(path_to(t, 0) == seq![0usize]);
    assert(!repeats_ancestor(t, 0));
}

proof fn lemma_advance_phase(t: Seq<EntryView>, stack: Seq<Frame>)
    ensures
        advance(t, stack).1 != WalkPhase::ClosingForChild,
        advance(t, stack).1 != WalkPhase::AwaitLinkStatus,
    decreases stack.len(),
{
    if stack.len() > 0 {
        lemma_advance_phase(t, stack.drop_last());
    }
}

/// The walk gets ready to go into a child only when the child's status said
/// it is a directory (its file-type bits say so): directly, or, when links
/// are followed, through the status of the link read next.
pub proof fn lemma_descends_only_into_directories(s: WalkState, e: WalkEvent)
    requires
        s.phase != WalkPhase::ClosingForChild,
        s.phase != WalkPhase::AwaitLinkStatus,
        next(s, e).0.phase == WalkPhase::ClosingForChild || next(s, e).0.phase
            == WalkPhase::AwaitLinkStatus,
    ensures
        s.phase == WalkPhase::AwaitStatus,
        e is Status,
        e->Status_mode & 0o170000 == 0o040000,
        next(s, e).0.phase == WalkPhase::AwaitLinkStatus ==> s.tree[s.stack.last().node as int].options.follow_slink,
{
    let t = s.tree;
    let f = s.stack.last();
    match e {
        WalkEvent::Listing(names) => {
            lemma_advance_phase(
                with_listing(t, f.node as int, names@),
                with_top(s.stack, Frame { fd_open: false, listed: true, ..f }),
            );
        },
        WalkEvent::Status { mode, dev, ino } => {
            let c = t[f.node as int].entries[f.next as int];
            lemma_advance_phase(
                t.update(c as int, EntryView { dev, ino, ..t[c as int] }),
                with_top(s.stack, Frame { next: (f.next + 1) as usize, ..f }),
            );
        },
        WalkEvent::StatusFailed { errno } => {
            lemma_advance_phase(t, with_top(s.stack, Frame { next: (f.next + 1) as usize, ..f }));
        },
        WalkEvent::Closed => {
            lemma_advance_phase(t, with_top(s.stack, Frame { fd_open: false, ..f }));
        },
        _ => {},
    }
}

/// A walk leaves the status of a link only for going into it or giving up.
pub proof fn lemma_link_status_leads_down(s: WalkState, e: WalkEvent)
    requires
        s.phase == WalkPhase::AwaitLinkStatus,
    ensures
        next(s, e).0.phase == WalkPhase::AwaitLinkStatus || next(s, e).0.phase
            == WalkPhase::ClosingForChild || next(s, e).0.phase == WalkPhase::Failed,
{
}

/// A walk starts with its shape.
pub proof fn lemma_initial_shape(name: Seq<char>, options: Options)
    ensures
        walk_shape(
            initial_state(name, options).tree,
            initial_state(name, options).stack,
            initial_state(name, options).phase,
        ),
{
    let t = seq![fresh_entry(name, options, None)];
    assert(path_to(t, 0) == seq![0usize]);
    assert(!repeats_ancestor(t, 0));
    let st = Seq::<Frame>::empty().push(Frame { node: 0, next: 0, fd_open: false, listed: false });
    reveal(loops_childless);
    reveal(frames_chained);
    reveal(frames_unmarked);
    reveal(rest_untouched);
    assert(st.len() == 1);
}

} // verus!
