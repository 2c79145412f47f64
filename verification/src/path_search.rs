//! Choosing the command that `wrappy exec` runs, and where configuration
//! files are found.
use vstd::prelude::*;
use crate::text::{concat3, string_of};

verus! {

/// What is known of one `PATH` candidate for the wrapped command: whether
/// it is a regular file, its permission bits, and whether it is this
/// program itself.
#[derive(Debug, Clone, Copy)]
pub struct CandidateProbe {
    pub is_file: bool,
    pub mode: u32,
    pub is_self: bool,
}

/// A candidate can be run when it is a regular file with an execute bit
/// and is not this program (which would only call itself again).
pub open spec fn runnable(p: CandidateProbe) -> bool {
    p.is_file && p.mode & 0o111u32 != 0 && !p.is_self
}

/// Whether the candidate can be run.
pub fn is_runnable(p: &CandidateProbe) -> (res: bool)
    ensures
        res == runnable(*p),
{
    p.is_file && p.mode & 0o111u32 != 0 && !p.is_self
}

/// The `PATH` candidate to exec: the first runnable one, in `PATH` order.
pub fn choose_real_command(probes: &Vec<CandidateProbe>) -> (res: Option<usize>)
    ensures
        match res {
            Some(i) => i < probes.len() && runnable(probes@[i as int]) && forall|j: int|
                0 <= j < i ==> !runnable(#[trigger] probes@[j]),
            None => forall|j: int| 0 <= j < probes.len() ==> !runnable(#[trigger] probes@[j]),
        },
{
    let mut i: usize = 0;
    while i < probes.len()
        invariant
            i <= probes.len(),
            forall|j: int| 0 <= j < i ==> !runnable(#[trigger] probes@[j]),
        decreases probes.len() - i,
    {
        if is_runnable(&probes[i]) {
            return Some(i);
        }
        i = i + 1;
    }
    None
}

/// The error when `PATH` is not set.
pub fn path_not_set_message() -> (res: String)
    ensures
        res@ == "PATH is not set"@,
{
    string_of("PATH is not set")
}

/// The error when no `PATH` candidate can be run.
pub fn unresolved_command_message(command_name: &str) -> (res: String)
    ensures
        res@ == "could not resolve underlying command `"@ + command_name@ + "` in PATH"@,
{
    concat3("could not resolve underlying command `", command_name, "` in PATH")
}

/// Where the configuration directory lies: a base directory and the
/// components joined to it in turn.
pub open spec fn config_dir_spec(xdg_config_home: Option<Seq<u8>>, home: Option<Seq<u8>>) -> Result<
    (Seq<u8>, Seq<Seq<char>>),
    Seq<char>,
> {
    match xdg_config_home {
        Some(x) => Ok((x, seq!["wrappy"@])),
        None => match home {
            Some(h) => Ok((h, seq![".config"@, "wrappy"@])),
            None => Err(
                "cannot resolve config directory because neither XDG_CONFIG_HOME nor HOME is set"@,
            ),
        },
    }
}

/// The configuration directory from the values of `XDG_CONFIG_HOME` and
/// `HOME`: `$XDG_CONFIG_HOME/wrappy` when that is set, else
/// `$HOME/.config/wrappy`.
pub fn config_dir(xdg_config_home: Option<Vec<u8>>, home: Option<Vec<u8>>) -> (res: Result<
    (Vec<u8>, Vec<String>),
    String,
>)
    ensures
        match (res, config_dir_spec(
            match xdg_config_home {
                Some(x) => Some(x@),
                None => None,
            },
            match home {
                Some(h) => Some(h@),
                None => None,
            },
        )) {
            (Ok((base, parts)), Ok((b, p))) => base@ == b && parts.deep_view() == p,
            (Err(m), Err(e)) => m@ == e,
            _ => false,
        },
{
    match xdg_config_home {
        Some(x) => {
            let mut parts: Vec<String> = Vec::new();
            parts.push(string_of("wrappy"));
            proof {
                assert(parts.deep_view() =~= seq!["wrappy"@]);
            }
            Ok((x, parts))
        },
        None => match home {
            Some(h) => {
                let mut parts: Vec<String> = Vec::new();
                parts.push(string_of(".config"));
                parts.push(string_of("wrappy"));
                proof {
                    assert(parts.deep_view() =~= seq![".config"@, "wrappy"@]);
                }
                Ok((h, parts))
            },
            None => Err(
                string_of(
                    "cannot resolve config directory because neither XDG_CONFIG_HOME nor HOME is set",
                ),
            ),
        },
    }
}

} // verus!
