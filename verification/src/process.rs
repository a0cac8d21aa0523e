//! Recognising a running Steam client among the processes listed in `/proc`.

use vstd::prelude::*;
use crate::number::{all_digits, is_ascii_digit};
use crate::text::{chars_equal, chars_of, trim_chars, trimmed};

verus! {

/// Whether an entry of `/proc` names a process: every character of its name
/// is an ASCII digit (as `chars().all(char::is_ascii_digit)` decides it, so
/// an empty name qualifies).
pub fn is_process_dir_name(name: &str) -> (res: bool)
    ensures
        res == all_digits(name@),
        res == (forall|i: int| 0 <= i < name@.len() ==> '0' <= #[trigger] name@[i] && name@[i] <= '9'),
{
    let n = chars_of(name);
    let mut i: usize = 0;
    while i < n.len()
        invariant
            i <= n.len(),
            n@ == name@,
            forall|k: int| 0 <= k < i ==> is_ascii_digit(#[trigger] n@[k]),
        decreases n.len() - i,
    {
        if !('0' <= n[i] && n[i] <= '9') {
            assert(!is_ascii_digit(n@[i as int]));
            return false;
        }
        i += 1;
    }
    true
}

/// The command name of the Steam client.
pub open spec fn steam_command_name() -> Seq<char> {
    "steam"@
}

/// Whether the contents of a process's `comm` file name the Steam client:
/// trimmed, they are `steam`.
pub fn is_steam_comm(comm: &str) -> (res: bool)
    ensures
        res == (trimmed(comm@) == steam_command_name()),
        res == (trimmed(comm@) == "steam"@),
{
    let c = chars_of(comm);
    let t = trim_chars(&c);
    let steam = chars_of("steam");
    chars_equal(&t, &steam)
}

} // verus!
