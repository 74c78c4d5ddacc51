use vstd::prelude::*;
use vstd::string::StringExecFns;

use crate::config::EDIT_KEY;
use crate::entry::LauncherEntry;

verus! {

/// The flag that switches bulk output on.
pub open spec fn bulk_flag() -> Seq<char> {
    "--print0"@
}

/// The views of the invocation arguments.
pub open spec fn args_view(args: Seq<String>) -> Seq<Seq<char>> {
    args.map_values(|s: String| s@)
}

/// The configuration file path among the first `i` arguments: the last one
/// that is not the bulk flag, if any.
pub open spec fn chosen_filename(args: Seq<Seq<char>>, i: int) -> Option<Seq<char>>
    decreases i,
{
    if i <= 0 {
        None
    } else if args[i - 1] != bulk_flag() {
        Some(args[i - 1])
    } else {
        chosen_filename(args, i - 1)
    }
}

/// Does the bulk flag stand among the first `i` arguments?
pub open spec fn has_bulk_flag(args: Seq<Seq<char>>, i: int) -> bool
    decreases i,
{
    if i <= 0 {
        false
    } else {
        args[i - 1] == bulk_flag() || has_bulk_flag(args, i - 1)
    }
}

/// What the launcher reads off its invocation arguments.
pub struct LaunchArgs {
    /// The configuration file path.
    pub filename: String,
    /// Whether bulk output was asked for.
    pub print0: bool,
}

/// Read the invocation arguments: every argument equal to the bulk flag
/// switches bulk mode on, and the last other argument is taken as the
/// configuration file path.  `None` when no such argument exists — the one
/// fatal argument error.
pub fn parse_args(args: &Vec<String>) -> (r: Option<LaunchArgs>)
    ensures
        match r {
            Some(la) => chosen_filename(args_view(args@), args@.len() as int) == Some(
                la.filename@,
            ) && la.print0 == has_bulk_flag(args_view(args@), args@.len() as int),
            None => chosen_filename(args_view(args@), args@.len() as int) is None,
        },
{
    let ghost av = args_view(args@);
    let flag = String::from_str("--print0");
    let mut filename: Option<String> = None;
    let mut print0 = false;
    let mut t: usize = 0;
    while t < args.len()
        invariant
            av == args_view(args@),
            flag@ == bulk_flag(),
            t <= args@.len(),
            print0 == has_bulk_flag(av, t as int),
            match filename {
                Some(f) => chosen_filename(av, t as int) == Some(f@),
                None => chosen_filename(av, t as int) is None,
            },
        decreases args@.len() - t,
    {
        proof {
            assert(av[t as int] == args@[t as int]@);
        }
        if args[t] == flag {
            print0 = true;
        } else {
            filename = Some(args[t].clone());
        }
        t = t + 1;
    }
    match filename {
        Some(f) => Some(LaunchArgs { filename: f, print0: print0 }),
        None => None,
    }
}

/// The synthesized entry that opens the editor on the configuration file.
/// It carries the reserved edit key, which the parser seeded into the
/// reserved set, so no other entry can hold that key.
pub fn edit_entry(editor: &String, filename: &String) -> (e: LauncherEntry)
    ensures
        e@.character == Some(EDIT_KEY),
        e@.command == editor@ + " "@ + filename@,
{
    let mut cmd = String::new();
    cmd.append(editor.as_str());
    cmd.append(" ");
    cmd.append(filename.as_str());
    proof {
        assert(cmd@ =~= editor@ + " "@ + filename@);
    }
    LauncherEntry { character: Some(EDIT_KEY), command: cmd }
}

} // verus!
