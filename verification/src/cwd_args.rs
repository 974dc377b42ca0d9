use vstd::prelude::*;
use vstd::string::StringExecFns;

use crate::text::str_eq;

verus! {

/// The option that names the directory to change root to.
pub open spec fn root_option() -> Seq<char> {
    "--root"@
}

/// The option that names the directory to work in.
pub open spec fn work_option() -> Seq<char> {
    "--work"@
}

/// The text put in front of an option that is not understood.
pub open spec fn unrecognized_prefix() -> Seq<char> {
    "Warning: Unrecognized option "@
}

/// The position just after the option at `i` and its value; the end of
/// `args` when the option has no value.
pub open spec fn after_value(args: Seq<String>, i: int) -> int {
    if i + 1 < args.len() { i + 2 } else { args.len() as int }
}

/// The root and work directories chosen by `args[i..]`, when those before
/// position `i` chose `root` and `work`. An option takes the argument that
/// follows it as its value, or none when it is the last argument; a later
/// option overrides an earlier one of the same kind.
pub open spec fn options_from(
    args: Seq<String>,
    i: int,
    root: Option<String>,
    work: Option<String>,
) -> (Option<String>, Option<String>)
    decreases args.len() - i,
{
    if i < 0 || i >= args.len() {
        (root, work)
    } else if args[i]@ == root_option() {
        let v = if i + 1 < args.len() { Some(args[i + 1]) } else { None };
        options_from(args, after_value(args, i), v, work)
    } else if args[i]@ == work_option() {
        let v = if i + 1 < args.len() { Some(args[i + 1]) } else { None };
        options_from(args, after_value(args, i), root, v)
    } else {
        options_from(args, i + 1, root, work)
    }
}

/// The root and work directories that a command line chooses; its first
/// argument is the program's name.
pub open spec fn chosen_options(args: Seq<String>) -> (Option<String>, Option<String>) {
    options_from(args, 1, None, None)
}

/// The warnings that `args[i..]` give, in order: one for each argument read
/// as an option that is neither of the two known options. The value of a
/// known option is not read as an option.
pub open spec fn warnings_from(args: Seq<String>, i: int) -> Seq<Seq<char>>
    decreases args.len() - i,
{
    if i < 0 || i >= args.len() {
        Seq::empty()
    } else if args[i]@ == root_option() || args[i]@ == work_option() {
        warnings_from(args, after_value(args, i))
    } else {
        seq![unrecognized_prefix() + args[i]@] + warnings_from(args, i + 1)
    }
}

/// The warnings that a command line gives; its first argument is the
/// program's name.
pub open spec fn warnings(args: Seq<String>) -> Seq<Seq<char>> {
    warnings_from(args, 1)
}

proof fn lemma_no_later_work(args: Seq<String>, i: int, root: Option<String>, work: Option<String>)
    requires
        i >= 0,
        forall|k: int| i <= k < args.len() ==> (#[trigger] args[k])@ != "--work"@,
    ensures
        options_from(args, i, root, work).1 == work,
    decreases args.len() - i,
{
    if i < args.len() {
        if args[i]@ == root_option() {
            let v = if i + 1 < args.len() { Some(args[i + 1]) } else { None };
            lemma_no_later_work(args, after_value(args, i), v, work);
        } else {
            assert(args[i]@ != work_option());
            lemma_no_later_work(args, i + 1, root, work);
        }
    }
}

proof fn lemma_no_later_root(args: Seq<String>, i: int, root: Option<String>, work: Option<String>)
    requires
        i >= 0,
        forall|k: int| i <= k < args.len() ==> (#[trigger] args[k])@ != "--root"@,
    ensures
        options_from(args, i, root, work).0 == root,
    decreases args.len() - i,
{
    if i < args.len() {
        assert(args[i]@ != root_option());
        if args[i]@ == work_option() {
            let v = if i + 1 < args.len() { Some(args[i + 1]) } else { None };
            lemma_no_later_root(args, after_value(args, i), root, v);
        } else {
            lemma_no_later_root(args, i + 1, root, work);
        }
    }
}

/// A `--work` option and its value, right after the program's name, choose
/// the work directory whatever follows, `--root` options included, unless a
/// later argument is `--work` itself.
pub proof fn lemma_work_kept(prog: String, opt: String, w: String, rest: Seq<String>)
    requires
        opt@ == "--work"@,
        forall|k: int| 0 <= k < rest.len() ==> (#[trigger] rest[k])@ != "--work"@,
    ensures
        chosen_options(seq![prog, opt, w] + rest).1 == Some(w),
{
    let a = seq![prog, opt, w] + rest;
    reveal_strlit("--work");
    reveal_strlit("--root");
    assert("--work"@[2] != "--root"@[2]);
    assert(a[1] == opt);
    assert(a[2] == w);
    assert(a[1]@ != root_option());
    assert(after_value(a, 1) == 3);
    assert forall|k: int| 3 <= k < a.len() implies (#[trigger] a[k])@ != "--work"@ by {
        assert(a[k] == rest[k - 3]);
    }
    lemma_no_later_work(a, 3, None, Some(w));
}

/// A `--root` option and its value, right after the program's name, choose
/// the root directory whatever follows, `--work` options included, unless a
/// later argument is `--root` itself.
pub proof fn lemma_root_kept(prog: String, opt: String, r: String, rest: Seq<String>)
    requires
        opt@ == "--root"@,
        forall|k: int| 0 <= k < rest.len() ==> (#[trigger] rest[k])@ != "--root"@,
    ensures
        chosen_options(seq![prog, opt, r] + rest).0 == Some(r),
{
    let a = seq![prog, opt, r] + rest;
    assert(a[1] == opt);
    assert(a[2] == r);
    assert(after_value(a, 1) == 3);
    assert forall|k: int| 3 <= k < a.len() implies (#[trigger] a[k])@ != "--root"@ by {
        assert(a[k] == rest[k - 3]);
    }
    lemma_no_later_root(a, 3, Some(r), None);
}

proof fn lemma_shift(a: Seq<String>, b: Seq<String>, i: int, root: Option<String>, work: Option<String>)
    requires
        a.len() == b.len() + 1,
        i >= 1,
        forall|k: int| 1 <= k < b.len() ==> a[k + 1] == #[trigger] b[k],
    ensures
        options_from(a, i + 1, root, work) == options_from(b, i, root, work),
        warnings_from(a, i + 1) == warnings_from(b, i),
    decreases b.len() - i,
{
    if i < b.len() {
        assert(b[i] == a[i + 1]);
        if i + 1 < b.len() {
            assert(b[i + 1] == a[i + 2]);
        }
        assert(after_value(a, i + 1) == after_value(b, i) + 1);
        if b[i]@ == root_option() || b[i]@ == work_option() {
            lemma_shift(a, b, after_value(b, i), if b[i]@ == root_option() {
                if i + 1 < b.len() { Some(b[i + 1]) } else { None }
            } else {
                root
            }, if b[i]@ == work_option() && b[i]@ != root_option() {
                if i + 1 < b.len() { Some(b[i + 1]) } else { None }
            } else {
                work
            });
            lemma_shift(a, b, after_value(b, i), root, work);
        } else {
            lemma_shift(a, b, i + 1, root, work);
        }
    }
}

/// An argument that is neither option, put right after the program's name,
/// changes neither directory chosen: options after it are read as they
/// would be without it. It only adds its own warning in front.
pub proof fn lemma_unknown_argument_ignored(prog: String, x: String, rest: Seq<String>)
    requires
        x@ != "--root"@,
        x@ != "--work"@,
    ensures
        chosen_options(seq![prog, x] + rest) == chosen_options(seq![prog] + rest),
        warnings(seq![prog, x] + rest) == seq!["Warning: Unrecognized option "@ + x@] + warnings(
            seq![prog] + rest,
        ),
{
    let a = seq![prog, x] + rest;
    let b = seq![prog] + rest;
    assert forall|k: int| 1 <= k < b.len() implies a[k + 1] == #[trigger] b[k] by {
        assert(a[k + 1] == rest[k - 1]);
        assert(b[k] == rest[k - 1]);
    }
    assert(a[1] == x);
    lemma_shift(a, b, 1, None, None);
}

/// Reads the command line `args` (program name first) and returns the root
/// directory and the work directory that it names, if any.
pub fn parse_arguments(args: &[String]) -> (r: (Option<String>, Option<String>))
    ensures
        r == chosen_options(args@),
{
    let mut root_dir: Option<String> = None;
    let mut work_dir: Option<String> = None;
    let mut i: usize = 1;
    while i < args.len()
        invariant
            1 <= i,
            chosen_options(args@) == options_from(args@, i as int, root_dir, work_dir),
        decreases args.len() - i,
    {
        let arg = args[i].as_str();
        if str_eq(arg, "--root") {
            root_dir = if i + 1 < args.len() {
                Some(args[i + 1].clone())
            } else {
                None
            };
            i = if i + 1 < args.len() { i + 2 } else { args.len() };
        } else if str_eq(arg, "--work") {
            work_dir = if i + 1 < args.len() {
                Some(args[i + 1].clone())
            } else {
                None
            };
            i = if i + 1 < args.len() { i + 2 } else { args.len() };
        } else {
            i = i + 1;
        }
    }
    (root_dir, work_dir)
}

/// The warnings that the command line `args` (program name first) calls
/// for, one line each, in the order of the arguments.
pub fn argument_warnings(args: &[String]) -> (r: Vec<String>)
    ensures
        r@.len() == warnings(args@).len(),
        forall|k: int| 0 <= k < r@.len() ==> #[trigger] r@[k]@ == warnings(args@)[k],
{
    let mut out: Vec<String> = Vec::new();
    let mut i: usize = 1;
    while i < args.len()
        invariant
            1 <= i,
            out@.len() + warnings_from(args@, i as int).len() == warnings(args@).len(),
            forall|k: int| 0 <= k < out@.len() ==> #[trigger] out@[k]@ == warnings(args@)[k],
            forall|k: int|
                0 <= k < warnings_from(args@, i as int).len() ==> warnings(args@)[out@.len() + k]
                    == #[trigger] warnings_from(args@, i as int)[k],
        decreases args.len() - i,
    {
        let arg = args[i].as_str();
        if str_eq(arg, "--root") || str_eq(arg, "--work") {
            i = if i + 1 < args.len() { i + 2 } else { args.len() };
        } else {
            let mut line = String::from_str("Warning: Unrecognized option ");
            line.append(arg);
            let ghost before = out@.len();
            out.push(line);
            proof {
                assert(warnings_from(args@, i as int)[0] == unrecognized_prefix() + args@[i as int]@);
                assert forall|k: int|
                    0 <= k < warnings_from(args@, i + 1).len() implies warnings(args@)[out@.len()
                        + k] == #[trigger] warnings_from(args@, i + 1)[k] by {
                    assert(warnings_from(args@, i as int)[k + 1] == warnings_from(args@, i + 1)[k]);
                }
            }
            i = i + 1;
        }
    }
    out
}

} // verus!
