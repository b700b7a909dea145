//! What the hosts call things.

use vstd::prelude::*;

use crate::journal::Host;
use crate::text::{chars_of, text_of};

verus! {

/// The environment variable in which a host names its session.
pub open spec fn variable_of(host: Host) -> Seq<char> {
    match host {
        Host::Claude => "CLAUDE_CODE_SESSION_ID"@,
        Host::Codex => "CODEX_THREAD_ID"@,
    }
}

/// Tells the environment variable in which a host names its session.
pub fn session_variable(host: Host) -> (name: &'static str)
    ensures
        name@ == variable_of(host),
{
    match host {
        Host::Claude => "CLAUDE_CODE_SESSION_ID",
        Host::Codex => "CODEX_THREAD_ID",
    }
}

/// How long the name of a host is.
pub open spec fn name_len(host: Host) -> int {
    match host {
        Host::Claude => 6,
        Host::Codex => 5,
    }
}

/// The lower-case letter for an upper-case one, and any other character as it
/// is.
pub open spec fn lower(c: char) -> char {
    if 'A' <= c && c <= 'Z' {
        (c as u32 + 32) as char
    } else {
        c
    }
}

/// The name of a host's own program: the name of the host, with which its
/// session variable begins, in lower case.
pub open spec fn program_of(host: Host) -> Seq<char> {
    variable_of(host).take(name_len(host)).map_values(|c: char| lower(c))
}

fn to_lower(c: char) -> (out: char)
    ensures
        out == lower(c),
{
    if 'A' <= c && c <= 'Z' {
        let code: u8 = c as u8;
        (code + 32) as char
    } else {
        c
    }
}

/// Names a host's own program.
pub fn program_name(host: Host) -> (name: String)
    ensures
        name@ == program_of(host),
{
    proof {
        reveal_strlit("CLAUDE_CODE_SESSION_ID");
        reveal_strlit("CODEX_THREAD_ID");
    }
    let variable = chars_of(session_variable(host));
    let len: usize = match host {
        Host::Claude => 6,
        Host::Codex => 5,
    };
    let mut name: Vec<char> = Vec::new();
    let mut i: usize = 0;
    while i < len
        invariant
            i <= len <= variable.len(),
            len == name_len(host),
            variable@ == variable_of(host),
            name@ == program_of(host).take(i as int),
        decreases len - i,
    {
        name.push(to_lower(variable[i]));
        assert(name@ =~= program_of(host).take(i + 1));
        i = i + 1;
    }
    assert(name@ =~= program_of(host));
    text_of(name.as_slice())
}

/// The name of a program is all that stands before the first underscore of the
/// session variable, and holds lower-case letters alone.
pub proof fn programs_are_named_like_their_hosts(host: Host)
    ensures
        program_of(host).len() == name_len(host),
        variable_of(host)[name_len(host)] == '_',
        forall|i: int|
            0 <= i < program_of(host).len() ==> 'a' <= #[trigger] program_of(host)[i] && program_of(
                host,
            )[i] <= 'z',
        program_of(Host::Codex) == "codex"@,
        forall|i: int|
            0 <= i < 6 ==> (#[trigger] program_of(Host::Claude)[i]) as u32
                == "CLAUDE_CODE_SESSION_ID"@[i] as u32 + 32,
{
    reveal_strlit("CLAUDE_CODE_SESSION_ID");
    reveal_strlit("CODEX_THREAD_ID");
    reveal_strlit("codex");
    assert(program_of(Host::Codex) =~= "codex"@);
}

} // verus!
