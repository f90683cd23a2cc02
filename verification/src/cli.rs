//! What the program was asked to do, from its command line.

use vstd::prelude::*;

use crate::error::HookError;
use crate::hooks::hooks::Hooks;
use crate::path::{file_name, path_file_name};
use crate::repo::config::GitConfig;
use crate::text::{chars_eq, from_chars, sviews, to_chars};

verus! {

/// The word that asks for the hooks to be installed.
pub const INSTALL_COMMAND: &'static str = "install";

/// What to do.
pub enum Command {
    /// Run the hook named `hook` with the arguments `args`.
    RunHook { hook: String, args: Vec<String> },
    /// Show the configuration screen.
    ShowConfig,
    /// Install the hooks into the repository, then show the configuration
    /// screen.
    Install,
}

/// The arguments from position `from` on.
fn args_from(args: &Vec<String>, from: usize) -> (r: Vec<String>)
    requires
        from <= args@.len(),
    ensures
        sviews(r@) == sviews(args@).skip(from as int),
{
    let mut out: Vec<String> = Vec::new();
    let mut i: usize = from;
    while i < args.len()
        invariant
            from <= i <= args@.len(),
            sviews(out@) == sviews(args@).subrange(from as int, i as int),
        decreases args@.len() - i,
    {
        let ghost before = out@;
        out.push(args[i].clone());
        assert(sviews(out@) =~= sviews(before).push(args@[i as int]@));
        assert(sviews(args@).subrange(from as int, i + 1) =~= sviews(args@).subrange(
            from as int,
            i as int,
        ).push(args@[i as int]@));
        i = i + 1;
    }
    assert(sviews(args@).subrange(from as int, i as int) =~= sviews(args@).skip(from as int));
    out
}

/// Decides what to do: when the program runs under a hook's name (as an
/// installed hook), that hook with all the arguments; without arguments,
/// the configuration screen; with a hook's name first, that hook with the
/// rest; with `install`, the installation; anything else is an unknown hook.
pub fn choose_command<C: GitConfig>(args: &Vec<String>, hooks: &Hooks<C>) -> (r: Result<
    Command,
    HookError,
>)
    requires
        args@.len() >= 1,
        file_name(args@[0]@) is Some,
    ensures
        ({
            let self_name = file_name(args@[0]@)->0;
            if hooks.as_map().contains_key(self_name) {
                r matches Ok(Command::RunHook { hook, args: rest }) && hook@ == self_name
                    && sviews(rest@) == sviews(args@).skip(1)
            } else if args@.len() == 1 {
                r matches Ok(Command::ShowConfig)
            } else if hooks.as_map().contains_key(args@[1]@) {
                r matches Ok(Command::RunHook { hook, args: rest }) && hook@ == args@[1]@
                    && sviews(rest@) == sviews(args@).skip(2)
            } else if args@[1]@ == INSTALL_COMMAND@ {
                r matches Ok(Command::Install)
            } else {
                r matches Err(HookError::UnknownHook(n)) && n@ == args@[1]@
            }
        }),
{
    let a0 = to_chars(args[0].as_str());
    let self_name = match path_file_name(a0.as_slice()) {
        Some(n) => from_chars(n.as_slice()),
        None => String::new(),
    };
    if hooks.contains_key(self_name.as_str()) {
        return Ok(Command::RunHook { hook: self_name, args: args_from(args, 1) });
    }
    if args.len() == 1 {
        return Ok(Command::ShowConfig);
    }
    if hooks.contains_key(args[1].as_str()) {
        return Ok(Command::RunHook { hook: args[1].clone(), args: args_from(args, 2) });
    }
    let a1 = to_chars(args[1].as_str());
    let install = to_chars(INSTALL_COMMAND);
    if chars_eq(a1.as_slice(), install.as_slice()) {
        return Ok(Command::Install);
    }
    Err(HookError::UnknownHook(args[1].clone()))
}

} // verus!
