use lab2::tree::{DirEntry, DirTree, Options};

fn strings(v: &[&str]) -> Vec<String> {
    v.iter().map(|s| s.to_string()).collect()
}

#[test]
fn options_new_keeps_choices() {
    let o = Options::new(true, false);
    assert!(o.follow_slink);
    assert!(!o.prevent_multiple_pathnames);
    let p = Options::new(false, true);
    assert!(!p.follow_slink);
    assert!(p.prevent_multiple_pathnames);
}

#[test]
fn dir_entry_open_mode_without_following() {
    let e = DirEntry::new("d", Options::new(false, false), None);
    assert_eq!(e.open_mode, libc::O_RDONLY | libc::O_DIRECTORY | libc::O_NOFOLLOW);
    assert_eq!(e.name, "d");
    assert_eq!(e.parent, None);
    assert!(e.entries.is_empty());
    assert_eq!((e.dev, e.ino), (0, 0));
    assert!(!e.loop_found && !e.cycle);
}

#[test]
fn dir_entry_open_mode_following() {
    let e = DirEntry::new("d", Options::new(true, false), Some(3));
    assert_eq!(e.open_mode, libc::O_RDONLY | libc::O_DIRECTORY);
    assert_eq!(e.open_mode & libc::O_NOFOLLOW, 0);
    assert_eq!(e.parent, Some(3));
}

fn sample(options: Options) -> DirTree {
    let mut t = DirTree::new("top", options);
    assert_eq!(t.add_child(0, "a"), 1);
    assert_eq!(t.add_child(0, "b"), 2);
    assert_eq!(t.add_child(1, "c"), 3);
    t
}

#[test]
fn add_child_puts_newest_first() {
    let t = sample(Options::new(false, false));
    assert_eq!(t.len(), 4);
    assert_eq!(t.entry(0).entries.iter().copied().collect::<Vec<_>>(), vec![2, 1]);
    assert_eq!(t.entry(1).entries.iter().copied().collect::<Vec<_>>(), vec![3]);
    assert_eq!(t.entry(3).parent, Some(1));
    assert_eq!(t.entry(3).name, "c");
}

#[test]
fn open_plan_walks_down_from_the_top() {
    let t = sample(Options::new(false, false));
    let mode = libc::O_RDONLY | libc::O_DIRECTORY | libc::O_NOFOLLOW;
    let plan = t.open_plan(3);
    let got: Vec<(String, i32)> = plan.into_iter().map(|s| (s.name, s.flags)).collect();
    assert_eq!(
        got,
        vec![
            ("top".to_string(), libc::O_RDONLY | libc::O_DIRECTORY),
            ("a".to_string(), mode),
            ("c".to_string(), mode),
        ]
    );
    let root_plan = t.open_plan(0);
    assert_eq!(root_plan.len(), 1);
    assert_eq!(root_plan[0].flags & libc::O_NOFOLLOW, 0);
}

#[test]
fn has_loop_compares_with_ancestors_only() {
    let mut t = sample(Options::new(false, false));
    t.set_identity(0, 1, 10);
    t.set_identity(1, 1, 11);
    t.set_identity(2, 1, 10);
    t.set_identity(3, 1, 10);
    assert!(!t.has_loop(0));
    assert!(!t.has_loop(1));
    assert!(t.has_loop(2));
    assert!(t.has_loop(3));
    t.set_identity(3, 2, 10);
    assert!(!t.has_loop(3));
}

#[test]
fn show_default_indents_by_two() {
    let t = sample(Options::new(false, false));
    assert_eq!(t.show_default(), strings(&["top", "  b", "  a", "    c"]));
    assert_eq!(t.show(3), strings(&["   top", "     b", "     a", "       c"]));
}

#[test]
fn show_marks_loops() {
    let mut t = sample(Options::new(false, false));
    t.mark_loop(3);
    assert_eq!(t.show_default(), strings(&["top", "  b", "  a", "    c (loop)"]));
}

#[test]
fn show_each_inode_once() {
    let mut t = sample(Options::new(false, true));
    t.set_identity(0, 1, 10);
    t.set_identity(1, 1, 11);
    t.set_identity(2, 1, 11);
    t.set_identity(3, 1, 12);
    // "b" is shown first and takes inode 11; "a" and all below it are left out.
    assert_eq!(t.show_default(), strings(&["top", "  b"]));
}

#[test]
fn show_all_names_without_once() {
    let mut t = sample(Options::new(false, false));
    t.set_identity(0, 1, 10);
    t.set_identity(1, 1, 11);
    t.set_identity(2, 1, 11);
    t.set_identity(3, 1, 11);
    assert_eq!(t.show_default(), strings(&["top", "  b", "  a", "    c"]));
}

#[test]
fn show_internal_uses_given_seen_set() {
    let mut t = sample(Options::new(false, true));
    t.set_identity(0, 1, 10);
    t.set_identity(1, 1, 11);
    t.set_identity(2, 1, 12);
    t.set_identity(3, 1, 13);
    let mut seen = std::collections::HashSet::new();
    seen.insert(12u64);
    let mut out = vec!["before".to_string()];
    t.show_internal(0, 0, &mut seen, &mut out);
    assert_eq!(out, strings(&["before", "top", "  a", "    c"]));
    assert!(seen.contains(&10) && seen.contains(&11) && seen.contains(&13));
}
