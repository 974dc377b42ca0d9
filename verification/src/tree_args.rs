use vstd::prelude::*;
use vstd::string::StringExecFns;

use crate::text::str_eq;

verus! {

/// The text put in front of an option that is not understood.
pub open spec fn unrecognized_prefix() -> Seq<char> {
    "Warning: Unrecognized option "@
}

/// The complaint about a command line without a directory.
pub open spec fn insufficient_message() -> Seq<char> {
    "Error: Insufficient arguments"@
}

/// Whether `args[1..len - 1]`, the options of a command line, hold `option`.
pub open spec fn has_option(args: Seq<String>, option: Seq<char>) -> bool {
    exists|k: int| 1 <= k < args.len() - 1 && #[trigger] args[k]@ == option
}

/// Whether `arg` is one of the four options understood.
pub open spec fn is_known_option(arg: Seq<char>) -> bool {
    arg == "-L"@ || arg == "-M"@ || arg == "-B"@ || arg == "-O"@
}

/// What a command line (program name first, directory last) asks for:
/// following symbolic links (`-L`), not crossing mount points (`-M`), not
/// leaving the directory (`-B`), showing each inode once (`-O`), and the
/// directory. With fewer than two arguments nothing is asked for.
pub open spec fn chosen_options(args: Seq<String>) -> (bool, bool, bool, bool, Option<String>) {
    if args.len() < 2 {
        (false, false, false, false, None)
    } else {
        (
            has_option(args, "-L"@),
            has_option(args, "-M"@),
            has_option(args, "-B"@),
            has_option(args, "-O"@),
            Some(args.last()),
        )
    }
}

/// The warnings for the options in `args[i..end]`: one for each that is not
/// understood, in order.
pub open spec fn warnings_between(args: Seq<String>, i: int, end: int) -> Seq<Seq<char>>
    decreases end - i,
{
    if i < 0 || i >= end || end > args.len() {
        Seq::empty()
    } else if is_known_option(args[i]@) {
        warnings_between(args, i + 1, end)
    } else {
        seq![unrecognized_prefix() + args[i]@] + warnings_between(args, i + 1, end)
    }
}

/// The lines that a command line calls for on the error stream: a
/// complaint when it names no directory, else a warning for each option
/// not understood.
pub open spec fn messages(args: Seq<String>) -> Seq<Seq<char>> {
    if args.len() < 2 {
        seq![insufficient_message()]
    } else {
        warnings_between(args, 1, args.len() - 1)
    }
}

/// Each of the four options is chosen as soon as it stands anywhere among
/// the options (between the program's name and the directory), whatever
/// stands before or after it, unknown options included.
pub proof fn lemma_option_anywhere(args: Seq<String>, k: int)
    requires
        1 <= k < args.len() - 1,
    ensures
        args[k]@ == "-L"@ ==> chosen_options(args).0,
        args[k]@ == "-M"@ ==> chosen_options(args).1,
        args[k]@ == "-B"@ ==> chosen_options(args).2,
        args[k]@ == "-O"@ ==> chosen_options(args).3,
        chosen_options(args).4 == Some(args[args.len() - 1]),
{
}

/// An option is chosen only when it stands among the options.
pub proof fn lemma_option_only_if_given(args: Seq<String>)
    ensures
        chosen_options(args).0 ==> exists|k: int| 1 <= k < args.len() - 1 && #[trigger] args[k]@ == "-L"@,
        chosen_options(args).1 ==> exists|k: int| 1 <= k < args.len() - 1 && #[trigger] args[k]@ == "-M"@,
        chosen_options(args).2 ==> exists|k: int| 1 <= k < args.len() - 1 && #[trigger] args[k]@ == "-B"@,
        chosen_options(args).3 ==> exists|k: int| 1 <= k < args.len() - 1 && #[trigger] args[k]@ == "-O"@,
{
}

proof fn lemma_warnings_shift(a: Seq<String>, b: Seq<String>, i: int, end: int)
    requires
        a.len() == b.len() + 1,
        1 <= i,
        end == b.len() - 1,
        forall|k: int| 1 <= k < b.len() ==> a[k + 1] == #[trigger] b[k],
    ensures
        warnings_between(a, i + 1, end + 1) == warnings_between(b, i, end),
    decreases end - i,
{
    if i < end {
        assert(b[i] == a[i + 1]);
        lemma_warnings_shift(a, b, i + 1, end);
    }
}

/// One more option right after the program's name: a known one is chosen
/// besides those chosen already and adds no message; an unknown one chooses
/// nothing and adds its warning in front of the others. The directory stays
/// the last argument.
pub proof fn lemma_option_prepended(prog: String, x: String, rest: Seq<String>)
    requires
        rest.len() >= 1,
    ensures
        ({
            let a = seq![prog, x] + rest;
            let b = seq![prog] + rest;
            &&& chosen_options(a).0 == (x@ == "-L"@ || chosen_options(b).0)
            &&& chosen_options(a).1 == (x@ == "-M"@ || chosen_options(b).1)
            &&& chosen_options(a).2 == (x@ == "-B"@ || chosen_options(b).2)
            &&& chosen_options(a).3 == (x@ == "-O"@ || chosen_options(b).3)
            &&& chosen_options(a).4 == chosen_options(b).4
            &&& messages(a) == if is_known_option(x@) {
                messages(b)
            } else {
                seq!["Warning: Unrecognized option "@ + x@] + messages(b)
            }
        }),
{
    let a = seq![prog, x] + rest;
    let b = seq![prog] + rest;
    assert forall|k: int| 1 <= k < b.len() implies a[k + 1] == #[trigger] b[k] by {
        assert(a[k + 1] == rest[k - 1]);
        assert(b[k] == rest[k - 1]);
    }
    assert(a[1] == x);
    assert(a.last() == b.last());
    lemma_warnings_shift(a, b, 1, b.len() - 1);
    assert forall|opt: Seq<char>| has_option(a, opt) == (x@ == opt || has_option(b, opt)) by {
        if has_option(a, opt) {
            let k = choose|k: int| 1 <= k < a.len() - 1 && #[trigger] a[k]@ == opt;
            if k > 1 {
                assert(b[k - 1] == a[k]);
            }
        }
        if has_option(b, opt) {
            let k = choose|k: int| 1 <= k < b.len() - 1 && #[trigger] b[k]@ == opt;
            assert(a[k + 1] == b[k]);
        }
    }
}

/// Tells whether `arg` is one of the four options understood, and which.
fn classify(arg: &str) -> (r: u8)
    ensures
        r == 1 <==> arg@ == "-L"@,
        r == 2 <==> arg@ == "-M"@,
        r == 3 <==> arg@ == "-B"@,
        r == 4 <==> arg@ == "-O"@,
        r == 0 <==> !is_known_option(arg@),
{
    proof {
        reveal_strlit("-L");
        reveal_strlit("-M");
        reveal_strlit("-B");
        reveal_strlit("-O");
        assert("-L"@[1] == 'L' && "-M"@[1] == 'M' && "-B"@[1] == 'B' && "-O"@[1] == 'O');
    }
    if str_eq(arg, "-L") {
        1
    } else if str_eq(arg, "-M") {
        2
    } else if str_eq(arg, "-B") {
        3
    } else if str_eq(arg, "-O") {
        4
    } else {
        0
    }
}

/// Reads the command line `args` (program name first, directory last) and
/// returns the `-L`, `-M`, `-B` and `-O` choices and the directory.
pub fn parse_arguments(args: &[String]) -> (r: (bool, bool, bool, bool, Option<String>))
    ensures
        r == chosen_options(args@),
        r.0 == (args@.len() >= 2 && exists|k: int| 1 <= k < args@.len() - 1 && #[trigger] args@[k]@ == "-L"@),
        r.1 == (args@.len() >= 2 && exists|k: int| 1 <= k < args@.len() - 1 && #[trigger] args@[k]@ == "-M"@),
        r.2 == (args@.len() >= 2 && exists|k: int| 1 <= k < args@.len() - 1 && #[trigger] args@[k]@ == "-B"@),
        r.3 == (args@.len() >= 2 && exists|k: int| 1 <= k < args@.len() - 1 && #[trigger] args@[k]@ == "-O"@),
        r.4 == (if args@.len() >= 2 { Some(args@.last()) } else { None }),
{
    let mut follow_slink = false;
    let mut prohibit_mount_crossing = false;
    let mut prohibit_non_subdir_transition = false;
    let mut prevent_multiple_pathnames = false;
    if args.len() < 2 {
        return (
            follow_slink,
            prohibit_mount_crossing,
            prohibit_non_subdir_transition,
            prevent_multiple_pathnames,
            None,
        );
    }
    let end = args.len() - 1;
    let mut i: usize = 1;
    while i < end
        invariant
            1 <= i <= end,
            end == args.len() - 1,
            follow_slink == exists|k: int| 1 <= k < i && #[trigger] args@[k]@ == "-L"@,
            prohibit_mount_crossing == exists|k: int| 1 <= k < i && #[trigger] args@[k]@ == "-M"@,
            prohibit_non_subdir_transition == exists|k: int|
                1 <= k < i && #[trigger] args@[k]@ == "-B"@,
            prevent_multiple_pathnames == exists|k: int|
                1 <= k < i && #[trigger] args@[k]@ == "-O"@,
        decreases end - i,
    {
        let c = classify(args[i].as_str());
        if c == 1 {
            follow_slink = true;
        } else if c == 2 {
            prohibit_mount_crossing = true;
        } else if c == 3 {
            prohibit_non_subdir_transition = true;
        } else if c == 4 {
            prevent_multiple_pathnames = true;
        }
        i = i + 1;
    }
    (
        follow_slink,
        prohibit_mount_crossing,
        prohibit_non_subdir_transition,
        prevent_multiple_pathnames,
        Some(args[end].clone()),
    )
}

/// The lines that the command line `args` calls for on the error stream,
/// in order.
pub fn argument_messages(args: &[String]) -> (r: Vec<String>)
    ensures
        r@.len() == messages(args@).len(),
        forall|k: int| 0 <= k < r@.len() ==> #[trigger] r@[k]@ == messages(args@)[k],
{
    let mut out: Vec<String> = Vec::new();
    if args.len() < 2 {
        out.push(String::from_str("Error: Insufficient arguments"));
        return out;
    }
    let end = args.len() - 1;
    let mut i: usize = 1;
    while i < end
        invariant
            1 <= i <= end,
            end == args.len() - 1,
            out@.len() + warnings_between(args@, i as int, end as int).len() == messages(args@).len(),
            forall|k: int| 0 <= k < out@.len() ==> #[trigger] out@[k]@ == messages(args@)[k],
            forall|k: int|
                0 <= k < warnings_between(args@, i as int, end as int).len() ==> messages(
                    args@,
                )[out@.len() + k] == #[trigger] warnings_between(args@, i as int, end as int)[k],
        decreases end - i,
    {
        let arg = args[i].as_str();
        let ghost w = warnings_between(args@, i as int, end as int);
        let ghost w1 = warnings_between(args@, i + 1, end as int);
        if classify(arg) == 0 {
            let mut line = String::from_str("Warning: Unrecognized option ");
            line.append(arg);
            out.push(line);
            proof {
                assert(w[0] == unrecognized_prefix() + args@[i as int]@);
                assert forall|k: int| 0 <= k < w1.len() implies messages(args@)[out@.len() + k]
                    == #[trigger] w1[k] by {
                    assert(w[k + 1] == w1[k]);
                }
            }
        } else {
            assert(w == w1);
        }
        i = i + 1;
    }
    out
}

} // verus!
